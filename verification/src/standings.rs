//! Scorer and standings ranker: per-participant aggregation of event
//! scores, descending rank order with identifier tie-breaks, tie-grouped
//! competition positions, and the aligned text report.

use vstd::prelude::*;
use crate::error::{FestiveError, FestiveResult};
use crate::event::{
    event_wf, id_lt, lemma_id_connected, lemma_id_lt_trans, score_term, scoreable, Event, EventV,
    Identifier, IdentifierV, Score,
};
use crate::rational::{
    all_nonzero, centi_round, lemma_rat_connected, lemma_rat_eq_lt_right, lemma_rat_eq_trans,
    lemma_rat_lt_trans, lemma_sum_recips_wf, rat_eq, rat_lt, rat_wf, sum_recips, Rational,
};
use crate::text::{left_pad, nat_text, right_pad, two_dec_text};

verus! {

/// Mathematical view of one standings entry: an identifier and the
/// day-count terms of its accumulated score.
pub type EntryV = (IdentifierV, Seq<i64>);

pub open spec fn entry_score(e: EntryV) -> Rational {
    sum_recips(e.1)
}

/// The views of a sequence of concrete entries.
pub open spec fn entries_view(s: Seq<(Identifier, Score)>) -> Seq<EntryV> {
    Seq::new(s.len(), |i: int| (s[i].0@, s[i].1@))
}

/// The views of a sequence of events.
pub open spec fn events_view(s: Seq<Event>) -> Seq<EventV> {
    Seq::new(s.len(), |i: int| s[i]@)
}

pub open spec fn entries_wf(s: Seq<EntryV>) -> bool {
    forall|i: int| 0 <= i < s.len() ==> all_nonzero(#[trigger] s[i].1)
}

/// `a` stands strictly before `b`: higher score first, identifier order
/// breaking ties.
pub open spec fn entry_before(a: EntryV, b: EntryV) -> bool {
    rat_lt(entry_score(b), entry_score(a)) || (rat_eq(entry_score(a), entry_score(b)) && id_lt(
        a.0,
        b.0,
    ))
}

pub open spec fn sorted_entries(s: Seq<EntryV>) -> bool {
    forall|i: int, j: int| 0 <= i < j < s.len() ==> !entry_before(#[trigger] s[j], #[trigger] s[i])
}

/// The standings order is transitive on its non-strict side.
pub proof fn lemma_not_before_trans(a: EntryV, b: EntryV, c: EntryV)
    requires
        all_nonzero(a.1),
        all_nonzero(b.1),
        all_nonzero(c.1),
        !entry_before(b, a),
        !entry_before(c, b),
    ensures
        !entry_before(c, a),
{
    let sa = entry_score(a);
    let sb = entry_score(b);
    let sc = entry_score(c);
    lemma_sum_recips_wf(a.1);
    lemma_sum_recips_wf(b.1);
    lemma_sum_recips_wf(c.1);
    if entry_before(c, a) {
        if rat_lt(sa, sc) {
            if rat_lt(sc, sb) {
                lemma_rat_lt_trans(sa, sc, sb);
            } else {
                lemma_rat_connected(sb, sc);
                lemma_rat_eq_lt_right(sc, sb, sa);
            }
        } else {
            // scores of c and a are equal and the identifier of c orders first
            assert(rat_eq(sc, sa));
            // b's score can be below neither a's nor c's, so all three are equal
            if rat_lt(sb, sa) {
                lemma_rat_eq_lt_right(sa, sc, sb);
            }
            lemma_rat_connected(sa, sb);
            assert(rat_eq(sa, sb));
            lemma_rat_eq_trans(sc, sa, sb);
            assert(rat_eq(sb, sa));
            assert(rat_eq(sc, sb));
            assert(!id_lt(b.0, a.0));
            assert(!id_lt(c.0, b.0));
            if id_lt(c.0, a.0) {
                if id_lt(b.0, c.0) {
                    lemma_id_lt_trans(b.0, c.0, a.0);
                } else {
                    lemma_id_connected(b.0, c.0);
                }
            }
        }
    }
}

/// The standings order is asymmetric.
pub proof fn lemma_entry_asym(a: EntryV, b: EntryV)
    requires
        all_nonzero(a.1),
        all_nonzero(b.1),
        entry_before(a, b),
    ensures
        !entry_before(b, a),
{
    lemma_sum_recips_wf(a.1);
    lemma_sum_recips_wf(b.1);
    if entry_before(b, a) {
        if rat_eq(entry_score(a), entry_score(b)) && id_lt(a.0, b.0) {
            crate::event::lemma_id_asym(a.0, b.0);
        }
    }
}

/// The index of an identifier among entries, or `-1` when absent.
pub open spec fn find_id(s: Seq<EntryV>, id: IdentifierV) -> int
    decreases s.len(),
{
    if s.len() == 0 {
        -1
    } else if s[0].0 == id {
        0
    } else {
        let r = find_id(s.skip(1), id);
        if r == -1 {
            -1
        } else {
            r + 1
        }
    }
}

/// `find_id` finds the first occurrence.
proof fn lemma_find_id_at(s: Seq<EntryV>, id: IdentifierV, k: int)
    requires
        0 <= k < s.len(),
        forall|p: int| 0 <= p < k ==> s[p].0 != id,
        s[k].0 == id,
    ensures
        find_id(s, id) == k,
    decreases k,
{
    if k > 0 {
        lemma_find_id_at(s.skip(1), id, k - 1);
        assert(s.skip(1)[k - 1].0 == id);
    }
}

/// `find_id` reports absence.
proof fn lemma_find_id_none(s: Seq<EntryV>, id: IdentifierV)
    requires
        forall|p: int| 0 <= p < s.len() ==> s[p].0 != id,
    ensures
        find_id(s, id) == -1,
    decreases s.len(),
{
    if s.len() > 0 {
        lemma_find_id_none(s.skip(1), id);
    }
}

/// `find_id` stays in range and lands on its identifier.
proof fn lemma_find_id_valid(s: Seq<EntryV>, id: IdentifierV)
    ensures
        find_id(s, id) == -1 || (0 <= find_id(s, id) < s.len() && s[find_id(s, id)].0 == id),
    decreases s.len(),
{
    if s.len() > 0 {
        lemma_find_id_valid(s.skip(1), id);
    }
}

/// One event folded into the aggregate: a new identifier opens an entry,
/// a known one accumulates its term.
pub open spec fn agg_insert(s: Seq<EntryV>, id: IdentifierV, term: i64) -> Seq<EntryV> {
    let k = find_id(s, id);
    if k == -1 {
        s.push((id, seq![term]))
    } else {
        s.update(k, (s[k].0, s[k].1 + seq![term]))
    }
}

/// The aggregate of a sequence of events, keyed by identifier in order of
/// first appearance: each participant's entry holds every scoring term of
/// their events, in event order.
pub open spec fn agg_spec(events: Seq<EventV>) -> Seq<EntryV>
    decreases events.len(),
{
    if events.len() == 0 {
        Seq::empty()
    } else {
        agg_insert(
            agg_spec(events.drop_last()),
            events.last().id,
            score_term(events.last()) as i64,
        )
    }
}

/// The position of an identifier's entry, when it has one.
fn find_entry(acc: &Vec<(Identifier, Score)>, id: &Identifier) -> (r: Option<usize>)
    ensures
        r matches Some(k) ==> k < acc@.len() && find_id(entries_view(acc@), id@) == k as int
            && entries_view(acc@)[k as int].0 == id@,
        r is None ==> find_id(entries_view(acc@), id@) == -1,
{
    let len = acc.len();
    let mut k: usize = 0;
    while k < len
        invariant
            k <= len,
            len == acc@.len(),
            forall|p: int| 0 <= p < k ==> (#[trigger] entries_view(acc@)[p]).0 != id@,
        decreases len - k,
    {
        if acc[k].0.same(id) {
            proof {
                lemma_find_id_at(entries_view(acc@), id@, k as int);
            }
            return Some(k);
        }
        k += 1;
    }
    proof {
        lemma_find_id_none(entries_view(acc@), id@);
    }
    None
}

/// Sum every event's score per participant. Fails with `Conv` exactly
/// when some event cannot be scored.
pub fn aggregate(events: &[Event]) -> (r: FestiveResult<Vec<(Identifier, Score)>>)
    requires
        forall|i: int| 0 <= i < events@.len() ==> event_wf(#[trigger] events@[i]@),
    ensures
        r matches Ok(v) ==> entries_view(v@) == agg_spec(events_view(events@)),
        r matches Ok(v) ==> entries_wf(entries_view(v@)),
        r matches Ok(v) ==> forall|p: int|
            0 <= p < v@.len() ==> (#[trigger] entries_view(v@)[p]).1.len() <= events@.len(),
        r matches Err(e) ==> e == FestiveError::Conv,
        r is Err ==> exists|i: int| 0 <= i < events@.len() && !scoreable(#[trigger] events@[i]@),
        (forall|i: int| 0 <= i < events@.len() ==> scoreable(#[trigger] events@[i]@)) ==> r is Ok,
    decreases events@.len(),
{
    let n = events.len();
    let mut acc: Vec<(Identifier, Score)> = Vec::new();
    let mut i: usize = 0;
    proof {
        assert(entries_view(acc@) =~= Seq::<EntryV>::empty());
        assert(events_view(events@.take(0)) =~= Seq::<EventV>::empty());
    }
    while i < n
        invariant
            i <= n,
            n == events@.len(),
            forall|p: int| 0 <= p < events@.len() ==> event_wf(#[trigger] events@[p]@),
            entries_view(acc@) == agg_spec(events_view(events@.take(i as int))),
            entries_wf(entries_view(acc@)),
            forall|p: int|
                0 <= p < acc@.len() ==> (#[trigger] entries_view(acc@)[p]).1.len() <= i as int,
        decreases n - i,
    {
        let e = &events[i];
        proof {
            crate::event::lemma_event_parts(e);
        }
        let sc = match e.score() {
            Ok(s) => s,
            Err(er) => {
                return Err(er);
            },
        };
        let ghost pre = entries_view(acc@);
        let ghost id = e.id@;
        let ghost term = sc@[0];
        match find_entry(&acc, &e.id) {
            Some(k) => {
                let pair = acc.remove(k);
                let mut score_acc = pair.1;
                score_acc.absorb(&sc);
                acc.insert(k, (pair.0, score_acc));
                proof {
                    assert(entries_view(acc@) =~= pre.update(
                        k as int,
                        (pre[k as int].0, pre[k as int].1 + seq![term]),
                    ));
                }
            },
            None => {
                acc.push((e.id.duplicate(), sc));
                proof {
                    assert(entries_view(acc@) =~= pre.push((id, seq![term])));
                }
            },
        }
        proof {
            let dv = events_view(events@.take(i as int + 1));
            assert(dv.drop_last() =~= events_view(events@.take(i as int)));
            assert(dv.last() == events@[i as int]@);
            assert(dv.len() == i as int + 1);
            assert(agg_spec(dv) == agg_insert(
                agg_spec(dv.drop_last()),
                dv.last().id,
                score_term(dv.last()) as i64,
            ));
            assert(agg_spec(dv.drop_last()) == pre);
            assert(term == score_term(dv.last()) as i64);
            assert(entries_view(acc@) == agg_insert(pre, id, term));
            assert(entries_view(acc@) == agg_spec(dv));
        }
        i += 1;
    }
    proof {
        assert(events@.take(n as int) =~= events@);
    }
    Ok(acc)
}

/// Whether `a` stands strictly before `b`, executably.
fn entry_before_exec(a: &(Identifier, Score), b: &(Identifier, Score)) -> (r: bool)
    requires
        a.1.wf(),
        b.1.wf(),
    ensures
        r == entry_before((a.0@, a.1@), (b.0@, b.1@)),
{
    match a.1.value_cmp(&b.1) {
        core::cmp::Ordering::Greater => true,
        core::cmp::Ordering::Equal => a.0.lt(&b.0),
        core::cmp::Ordering::Less => false,
    }
}

/// Sort entries into standings order: descending by score, ascending by
/// identifier among equal scores (stable up to that total order).
pub fn sort_entries(entries: &mut Vec<(Identifier, Score)>)
    requires
        entries_wf(entries_view(old(entries)@)),
    ensures
        entries_view(final(entries)@).to_multiset() == entries_view(old(entries)@).to_multiset(),
        sorted_entries(entries_view(final(entries)@)),
        entries_wf(entries_view(final(entries)@)),
        final(entries)@.len() == old(entries)@.len(),
{
    let n = entries.len();
    if n < 2 {
        return ;
    }
    let mut i: usize = 1;
    while i < n
        invariant
            1 <= i <= n,
            n == entries@.len(),
            entries_view(entries@).to_multiset() == entries_view(old(entries)@).to_multiset(),
            entries_wf(entries_view(entries@)),
            forall|p: int, q: int|
                0 <= p < q < i ==> !entry_before(
                    #[trigger] entries_view(entries@)[q],
                    #[trigger] entries_view(entries@)[p],
                ),
        decreases n - i,
    {
        let mut j: usize = i;
        loop
            invariant
                0 <= j <= i < n,
                n == entries@.len(),
                entries_view(entries@).to_multiset() == entries_view(
                    old(entries)@,
                ).to_multiset(),
                entries_wf(entries_view(entries@)),
                forall|p: int, q: int|
                    0 <= p < q <= i && q != j as int ==> !entry_before(
                        #[trigger] entries_view(entries@)[q],
                        #[trigger] entries_view(entries@)[p],
                    ),
                forall|q: int|
                    j < q <= i ==> !entry_before(
                        #[trigger] entries_view(entries@)[q],
                        entries_view(entries@)[j as int],
                    ),
            ensures
                j == 0 || !entry_before(
                    entries_view(entries@)[j as int],
                    entries_view(entries@)[j as int - 1],
                ),
            decreases j,
        {
            if j == 0 {
                break ;
            }
            proof {
                assert(all_nonzero(entries_view(entries@)[j as int].1));
                assert(all_nonzero(entries_view(entries@)[j as int - 1].1));
            }
            if !entry_before_exec(&entries[j], &entries[j - 1]) {
                break ;
            }
            let ghost vpre = entries_view(entries@);
            let ghost pre = entries@;
            let x = entries.remove(j);
            entries.insert(j - 1, x);
            proof {
                broadcast use vstd::seq_lib::group_to_multiset_ensures;

                assert(entries@ =~= pre.update(j as int, pre[j - 1]).update(
                    j - 1,
                    pre[j as int],
                ));
                assert(entries_view(entries@) =~= vpre.update(j as int, vpre[j - 1]).update(
                    j - 1,
                    vpre[j as int],
                ));
                assert(forall|p: int|
                    0 <= p < n && p != j as int && p != j as int - 1
                        ==> entries_view(entries@)[p] == vpre[p]);
                assert(entries_view(entries@)[j as int - 1] == vpre[j as int]
                    && entries_view(entries@)[j as int] == vpre[j as int - 1]);
                assert(entries_view(pre.remove(j as int)) =~= vpre.remove(j as int));
                assert(entries_view(entries@) =~= vpre.remove(j as int).insert(
                    j as int - 1,
                    vpre[j as int],
                ));
                crate::event::lemma_insert_multiset(
                    vpre.remove(j as int),
                    j as int - 1,
                    vpre[j as int],
                );
                assert(vpre.contains(vpre[j as int]));
                assert(entries_view(entries@).to_multiset() =~= vpre.to_multiset());
                let v = entries_view(entries@);
                let jj = j as int;
                assert(entry_before(vpre[jj], vpre[jj - 1]));
                lemma_entry_asym(vpre[jj], vpre[jj - 1]);
                assert forall|p: int, q: int|
                    0 <= p < q <= i && q != jj - 1 implies !entry_before(
                    #[trigger] v[q],
                    #[trigger] v[p],
                ) by {
                    if q == jj {
                        if p < jj - 1 {
                            assert(!entry_before(vpre[jj - 1], vpre[p]));
                        }
                    } else if q > jj {
                        if p == jj - 1 {
                            assert(!entry_before(vpre[q], vpre[jj]));
                        } else if p == jj {
                            assert(!entry_before(vpre[q], vpre[jj - 1]));
                        } else {
                            assert(!entry_before(vpre[q], vpre[p]));
                        }
                    } else {
                        assert(!entry_before(vpre[q], vpre[p]));
                    }
                }
                assert forall|q: int| jj - 1 < q <= i implies !entry_before(
                    #[trigger] v[q],
                    v[jj - 1],
                ) by {
                    if q != jj {
                        assert(!entry_before(vpre[q], vpre[jj]));
                    }
                }
            }
            j -= 1;
        }
        proof {
            let v = entries_view(entries@);
            assert forall|p: int, q: int| 0 <= p < q < i as int + 1 implies !entry_before(
                #[trigger] v[q],
                #[trigger] v[p],
            ) by {
                if q == j as int && p < q {
                    assert(!entry_before(v[j as int], v[j as int - 1]));
                    if p < j as int - 1 {
                        assert(!entry_before(v[j as int - 1], v[p]));
                        lemma_not_before_trans(v[p], v[j as int - 1], v[j as int]);
                    }
                }
            }
        }
        i += 1;
    }
}

/// The shape of a run of tie groups: each group is non-empty, scores
/// agree within a group and strictly descend between groups, and each
/// later group's position is the previous position plus the size of the
/// previous (tied) group.
pub open spec fn grouping_chain(gs: Seq<(int, Seq<EntryV>)>) -> bool {
    &&& forall|k: int| 0 <= k < gs.len() ==> (#[trigger] gs[k].1).len() >= 1
    &&& forall|k: int, p: int, q: int|
        0 <= k < gs.len() && 0 <= p < gs[k].1.len() && 0 <= q < gs[k].1.len() ==> rat_eq(
            entry_score(#[trigger] gs[k].1[p]),
            entry_score(#[trigger] gs[k].1[q]),
        )
    &&& forall|k: int|
        0 <= k < gs.len() - 1 ==> rat_lt(
            entry_score(gs[k + 1].1[0]),
            entry_score((#[trigger] gs[k].1)[0]),
        )
    &&& forall|k: int|
        0 <= k < gs.len() - 1 ==> gs[k + 1].0 == gs[k].0 + (#[trigger] gs[k].1).len()
}

/// Everything a tie-grouped ranking promises besides covering the sorted
/// order: a chain of tie groups whose first stands at position one.
pub open spec fn grouping_structure(gs: Seq<(int, Seq<EntryV>)>) -> bool {
    &&& grouping_chain(gs)
    &&& (gs.len() > 0 ==> gs[0].0 == 1)
}

/// The groups laid end to end.
pub open spec fn flatten_groups(gs: Seq<(int, Seq<EntryV>)>) -> Seq<EntryV>
    decreases gs.len(),
{
    if gs.len() == 0 {
        Seq::empty()
    } else {
        flatten_groups(gs.drop_last()) + gs.last().1
    }
}

/// A tie-grouped competition ranking of the standings order `s`.
pub open spec fn valid_grouping(s: Seq<EntryV>, gs: Seq<(int, Seq<EntryV>)>) -> bool {
    &&& flatten_groups(gs) == s
    &&& grouping_structure(gs)
}

/// The views of concrete ranked groups.
pub open spec fn groups_view(gs: Seq<(usize, Vec<(Identifier, Score)>)>) -> Seq<
    (int, Seq<EntryV>),
> {
    Seq::new(gs.len(), |k: int| (gs[k].0 as int, entries_view(gs[k].1@)))
}

/// Every group member stands in the flattened order.
pub proof fn lemma_flatten_elem(gs: Seq<(int, Seq<EntryV>)>, k: int, p: int)
    requires
        0 <= k < gs.len(),
        0 <= p < gs[k].1.len(),
    ensures
        flatten_groups(gs).contains(gs[k].1[p]),
    decreases gs.len(),
{
    if k == gs.len() - 1 {
        assert(flatten_groups(gs) == flatten_groups(gs.drop_last()) + gs.last().1);
        assert(flatten_groups(gs)[flatten_groups(gs.drop_last()).len() + p] == gs[k].1[p]);
    } else {
        lemma_flatten_elem(gs.drop_last(), k, p);
        let pre = flatten_groups(gs.drop_last());
        let w = choose|w: int| 0 <= w < pre.len() && pre[w] == gs.drop_last()[k].1[p];
        assert(flatten_groups(gs)[w] == gs[k].1[p]);
    }
}

/// Group a sorted standings order into tie groups with competition
/// positions: tied entries share a position, and the next distinct
/// score's group stands at the previous position plus the size of the
/// tied group.
pub fn rank(scores: &Vec<(Identifier, Score)>) -> (groups: Vec<
    (usize, Vec<(Identifier, Score)>),
>)
    requires
        sorted_entries(entries_view(scores@)),
        entries_wf(entries_view(scores@)),
    ensures
        valid_grouping(entries_view(scores@), groups_view(groups@)),
{
    let ghost sv = entries_view(scores@);
    let n = scores.len();
    let mut groups: Vec<(usize, Vec<(Identifier, Score)>)> = Vec::new();
    let mut cur: Vec<(Identifier, Score)> = Vec::new();
    let mut cur_pos: usize = 1;
    let mut i: usize = 0;
    proof {
        assert(flatten_groups(groups_view(groups@)) =~= Seq::<EntryV>::empty());
        assert(sv.take(0) =~= Seq::<EntryV>::empty());
        assert(entries_view(cur@) =~= sv.subrange(0, 0));
    }
    while i < n
        invariant
            i <= n,
            n == sv.len(),
            sv == entries_view(scores@),
            sorted_entries(sv),
            entries_wf(sv),
            cur@.len() <= i,
            i > 0 ==> cur@.len() > 0,
            entries_view(cur@) == sv.subrange(i - cur@.len(), i as int),
            flatten_groups(groups_view(groups@)) == sv.take(i - cur@.len()),
            cur_pos as int == i - cur@.len() + 1,
            grouping_structure(groups_view(groups@)),
            groups@.len() > 0 ==> groups_view(groups@).last().0 + groups_view(
                groups@,
            ).last().1.len() == i - cur@.len() + 1,
            forall|p: int|
                0 <= p < cur@.len() ==> rat_eq(
                    entry_score(#[trigger] entries_view(cur@)[p]),
                    entry_score(entries_view(cur@)[0]),
                ),
            groups@.len() > 0 && cur@.len() > 0 ==> rat_lt(
                entry_score(entries_view(cur@)[0]),
                entry_score(groups_view(groups@).last().1[0]),
            ),
        decreases n - i,
    {
        let ghost curv = entries_view(cur@);
        let ghost gsv = groups_view(groups@);
        let ghost head = i - cur@.len();
        proof {
            assert(sv[i as int].1 == scores@[i as int].1@);
            assert(all_nonzero(sv[i as int].1));
        }
        let e_dup = (scores[i].0.duplicate(), scores[i].1.duplicate());
        proof {
            assert((e_dup.0@, e_dup.1@) == sv[i as int]);
        }
        if cur.len() == 0 {
            cur.push(e_dup);
            proof {
                assert(entries_view(cur@) =~= curv.push(sv[i as int]));
                assert(entries_view(cur@) =~= sv.subrange(i as int, i as int + 1));
                assert(flatten_groups(groups_view(groups@)) == sv.take(i as int));
            }
        } else {
            proof {
                assert(curv[0] == sv[head]);
                assert(all_nonzero(sv[head].1));
                assert(curv[0].1 == cur@[0].1@);
            }
            let same_score = match cur[0].1.value_cmp(&scores[i].1) {
                core::cmp::Ordering::Equal => true,
                _ => false,
            };
            if same_score {
                cur.push(e_dup);
                proof {
                    assert(entries_view(cur@) =~= curv.push(sv[i as int]));
                    assert(entries_view(cur@) =~= sv.subrange(head, i as int + 1));
                    assert forall|p: int| 0 <= p < cur@.len() implies rat_eq(
                        entry_score(#[trigger] entries_view(cur@)[p]),
                        entry_score(entries_view(cur@)[0]),
                    ) by {
                        if p < curv.len() {
                            assert(entries_view(cur@)[p] == curv[p]);
                        }
                    }
                }
            } else {
                // The score changed: close the tied group and open a new one.
                proof {
                    // sorted order plus a distinct score means strictly below
                    lemma_sum_recips_wf(sv[i as int].1);
                    lemma_sum_recips_wf(sv[head].1);
                    assert(!entry_before(sv[i as int], sv[head]));
                    lemma_rat_connected_helper(sv[head], sv[i as int]);
                }
                let size = cur.len();
                let mut closed: Vec<(Identifier, Score)> = Vec::new();
                core::mem::swap(&mut closed, &mut cur);
                groups.push((cur_pos, closed));
                cur.push(e_dup);
                cur_pos = cur_pos + size;
                proof {
                    let gsv2 = groups_view(groups@);
                    assert(gsv2.drop_last() =~= gsv);
                    assert(gsv2.last() == (cur_pos as int - size as int, curv));
                    assert(flatten_groups(gsv2) == flatten_groups(gsv) + curv);
                    assert(flatten_groups(gsv2) =~= sv.take(i as int));
                    assert(entries_view(cur@) =~= seq![sv[i as int]]);
                    assert(entries_view(cur@) =~= sv.subrange(i as int, i as int + 1));
                    // structure of the extended grouping
                    assert forall|k: int, p: int, q: int|
                        0 <= k < gsv2.len() && 0 <= p < gsv2[k].1.len() && 0 <= q
                            < gsv2[k].1.len() implies rat_eq(
                        entry_score(#[trigger] gsv2[k].1[p]),
                        entry_score(#[trigger] gsv2[k].1[q]),
                    ) by {
                        if k < gsv.len() {
                            assert(gsv2[k] == gsv[k]);
                        } else {
                            assert(gsv2[k].1 == curv);
                            assert(rat_eq(entry_score(curv[p]), entry_score(curv[0])));
                            assert(rat_eq(entry_score(curv[q]), entry_score(curv[0])));
                            assert(entries_wf(curv)) by {
                                assert(forall|x: int|
                                    0 <= x < curv.len() ==> #[trigger] curv[x] == sv[head + x]);
                            }
                            lemma_eq_through_head(curv, p, q);
                        }
                    }
                    assert forall|k: int| 0 <= k < gsv2.len() - 1 implies rat_lt(
                        entry_score(gsv2[k + 1].1[0]),
                        entry_score((#[trigger] gsv2[k].1)[0]),
                    ) by {
                        if k < gsv.len() - 1 {
                            assert(gsv2[k] == gsv[k]);
                            assert(gsv2[k + 1] == gsv[k + 1]);
                        } else {
                            assert(gsv2[k] == gsv.last());
                            assert(gsv2[k + 1].1 == curv);
                            assert(rat_lt(
                                entry_score(curv[0]),
                                entry_score(gsv.last().1[0]),
                            ));
                        }
                    }
                    assert forall|k: int| 0 <= k < gsv2.len() implies (
                    #[trigger] gsv2[k].1).len() >= 1 by {
                        if k < gsv.len() {
                            assert(gsv2[k] == gsv[k]);
                        } else {
                            assert(gsv2[k].1 == curv);
                        }
                    }
                    assert(gsv2[0].0 == 1) by {
                        if gsv.len() == 0 {
                            assert(sv.take(head).len() == 0);
                        } else {
                            assert(gsv2[0] == gsv[0]);
                        }
                    }
                    assert forall|k: int| 0 <= k < gsv2.len() - 1 implies gsv2[k + 1].0
                        == gsv2[k].0 + (#[trigger] gsv2[k].1).len() by {
                        if k < gsv.len() - 1 {
                            assert(gsv2[k] == gsv[k]);
                            assert(gsv2[k + 1] == gsv[k + 1]);
                        } else {
                            assert(gsv2[k] == gsv.last());
                        }
                    }
                    assert(grouping_structure(gsv2));
                }
            }
        }
        i += 1;
    }
    if cur.len() > 0 {
        let ghost curv = entries_view(cur@);
        let ghost gsv = groups_view(groups@);
        groups.push((cur_pos, cur));
        proof {
            let gsv2 = groups_view(groups@);
            assert(gsv2.drop_last() =~= gsv);
            assert(gsv2.last() == (cur_pos as int, curv));
            assert(flatten_groups(gsv2) == flatten_groups(gsv) + curv);
            assert(flatten_groups(gsv2) =~= sv);
            assert forall|k: int, p: int, q: int|
                0 <= k < gsv2.len() && 0 <= p < gsv2[k].1.len() && 0 <= q
                    < gsv2[k].1.len() implies rat_eq(
                entry_score(#[trigger] gsv2[k].1[p]),
                entry_score(#[trigger] gsv2[k].1[q]),
            ) by {
                if k < gsv.len() {
                    assert(gsv2[k] == gsv[k]);
                } else {
                    assert(gsv2[k].1 == curv);
                    assert(rat_eq(entry_score(curv[p]), entry_score(curv[0])));
                    assert(rat_eq(entry_score(curv[q]), entry_score(curv[0])));
                    assert(entries_wf(curv)) by {
                        assert(forall|x: int|
                            0 <= x < curv.len() ==> #[trigger] curv[x] == sv[n - curv.len() + x]);
                    }
                    lemma_eq_through_head(curv, p, q);
                }
            }
            assert forall|k: int| 0 <= k < gsv2.len() - 1 implies rat_lt(
                entry_score(gsv2[k + 1].1[0]),
                entry_score((#[trigger] gsv2[k].1)[0]),
            ) by {
                if k < gsv.len() - 1 {
                    assert(gsv2[k] == gsv[k]);
                    assert(gsv2[k + 1] == gsv[k + 1]);
                } else {
                    assert(gsv2[k] == gsv.last());
                    assert(gsv2[k + 1].1 == curv);
                    assert(rat_lt(entry_score(curv[0]), entry_score(gsv.last().1[0])));
                }
            }
            assert forall|k: int| 0 <= k < gsv2.len() implies (#[trigger] gsv2[k].1).len()
                >= 1 by {
                if k < gsv.len() {
                    assert(gsv2[k] == gsv[k]);
                } else {
                    assert(gsv2[k].1 == curv);
                }
            }
            assert(gsv2[0].0 == 1) by {
                if gsv.len() == 0 {
                    assert(sv.take(n - cur@.len() as int).len() == 0);
                } else {
                    assert(gsv2[0] == gsv[0]);
                }
            }
            assert forall|k: int| 0 <= k < gsv2.len() - 1 implies gsv2[k + 1].0 == gsv2[k].0 + (
            #[trigger] gsv2[k].1).len() by {
                if k < gsv.len() - 1 {
                    assert(gsv2[k] == gsv[k]);
                    assert(gsv2[k + 1] == gsv[k + 1]);
                } else {
                    assert(gsv2[k] == gsv.last());
                }
            }
            assert(grouping_structure(gsv2));
        }
    } else {
        proof {
            assert(flatten_groups(groups_view(groups@)) =~= sv);
        }
    }
    groups
}

/// Entries whose scores both equal their group head's score are equal to
/// each other.
proof fn lemma_eq_through_head(curv: Seq<EntryV>, p: int, q: int)
    requires
        0 <= p < curv.len(),
        0 <= q < curv.len(),
        entries_wf(curv),
        rat_eq(entry_score(curv[p]), entry_score(curv[0])),
        rat_eq(entry_score(curv[q]), entry_score(curv[0])),
    ensures
        rat_eq(entry_score(curv[p]), entry_score(curv[q])),
{
    lemma_sum_recips_wf(curv[p].1);
    lemma_sum_recips_wf(curv[q].1);
    lemma_sum_recips_wf(curv[0].1);
    lemma_rat_eq_trans(entry_score(curv[p]), entry_score(curv[0]), entry_score(curv[q]));
}

/// In a sorted order, a later entry whose score is not equal to an
/// earlier one's is strictly below it.
proof fn lemma_rat_connected_helper(earlier: EntryV, later: EntryV)
    requires
        all_nonzero(earlier.1),
        all_nonzero(later.1),
        !entry_before(later, earlier),
        !rat_eq(entry_score(earlier), entry_score(later)),
    ensures
        rat_lt(entry_score(later), entry_score(earlier)),
{
    lemma_sum_recips_wf(earlier.1);
    lemma_sum_recips_wf(later.1);
    if !rat_lt(entry_score(later), entry_score(earlier)) {
        lemma_rat_connected(entry_score(earlier), entry_score(later));
    }
}

/// The largest of a sequence of widths, at least zero.
pub open spec fn seq_max_of(s: Seq<int>) -> int
    decreases s.len(),
{
    if s.len() == 0 {
        0
    } else {
        let m = seq_max_of(s.drop_last());
        if s.last() > m {
            s.last()
        } else {
            m
        }
    }
}

/// The position column piece: the position, then a closing parenthesis.
pub open spec fn pos_piece(pos: int) -> Seq<char> {
    nat_text(pos) + seq![')']
}

/// The name column piece: the name, then a colon.
pub open spec fn name_piece(e: EntryV) -> Seq<char> {
    e.0.name + seq![':']
}

/// The score column piece: the exact score to two decimal places.
pub open spec fn score_piece(e: EntryV) -> Seq<char> {
    two_dec_text(centi_round(entry_score(e)))
}

pub open spec fn width_pos(gs: Seq<(int, Seq<EntryV>)>) -> int {
    seq_max_of(Seq::new(gs.len(), |k: int| pos_piece(gs[k].0).len() as int))
}

pub open spec fn group_name_widths(g: Seq<EntryV>) -> Seq<int> {
    Seq::new(g.len(), |p: int| name_piece(g[p]).len() as int)
}

pub open spec fn width_name(gs: Seq<(int, Seq<EntryV>)>) -> int {
    seq_max_of(Seq::new(gs.len(), |k: int| seq_max_of(group_name_widths(gs[k].1))))
}

pub open spec fn group_score_widths(g: Seq<EntryV>) -> Seq<int> {
    Seq::new(g.len(), |p: int| score_piece(g[p]).len() as int)
}

pub open spec fn width_score(gs: Seq<(int, Seq<EntryV>)>) -> int {
    seq_max_of(Seq::new(gs.len(), |k: int| seq_max_of(group_score_widths(gs[k].1))))
}

/// One report line: the position piece (only on a group's first line)
/// right-aligned, the name left-aligned, the score right-aligned, each
/// column one space apart.
pub open spec fn line_text(e: EntryV, posn: Seq<char>, wp: int, wn: int, ws: int) -> Seq<char> {
    left_pad(posn, wp) + seq![' '] + right_pad(name_piece(e), wn) + seq![' '] + left_pad(
        score_piece(e),
        ws,
    ) + seq!['\n']
}

/// The first `count` lines of one group.
pub open spec fn group_text_upto(
    g: (int, Seq<EntryV>),
    wp: int,
    wn: int,
    ws: int,
    count: int,
) -> Seq<char>
    decreases count,
{
    if count <= 0 {
        Seq::empty()
    } else {
        group_text_upto(g, wp, wn, ws, count - 1) + line_text(
            g.1[count - 1],
            if count == 1 {
                pos_piece(g.0)
            } else {
                Seq::empty()
            },
            wp,
            wn,
            ws,
        )
    }
}

/// The report of the first `k` groups.
pub open spec fn report_upto(
    gs: Seq<(int, Seq<EntryV>)>,
    wp: int,
    wn: int,
    ws: int,
    k: int,
) -> Seq<char>
    decreases k,
{
    if k <= 0 {
        Seq::empty()
    } else {
        report_upto(gs, wp, wn, ws, k - 1) + group_text_upto(
            gs[k - 1],
            wp,
            wn,
            ws,
            gs[k - 1].1.len() as int,
        )
    }
}

/// The standings report of ranked groups: one line per participant, the
/// columns aligned to the maximum width each needs.
pub open spec fn report_text(gs: Seq<(int, Seq<EntryV>)>) -> Seq<char> {
    report_upto(gs, width_pos(gs), width_name(gs), width_score(gs), gs.len() as int)
}

/// The position column piece of one group.
fn pos_piece_string(pos: usize) -> (r: String)
    ensures
        r@ == pos_piece(pos as int),
{
    let mut s = String::new();
    crate::text::push_nat(&mut s, pos as u64);
    s.append(")");
    proof {
        reveal_strlit(")");
        assert(s@ =~= pos_piece(pos as int));
    }
    s
}

/// The name column piece of one entry.
fn name_piece_string(e: &(Identifier, Score)) -> (r: String)
    ensures
        r@ == name_piece((e.0@, e.1@)),
{
    let mut s = e.0.name.clone();
    s.append(":");
    proof {
        reveal_strlit(":");
        assert(s@ =~= name_piece((e.0@, e.1@)));
    }
    s
}

/// The score column piece of one entry.
fn score_piece_string(e: &(Identifier, Score)) -> (r: String)
    requires
        e.1.wf(),
        e.1@.len() <= 0x1000_0000_0000,
    ensures
        r@ == score_piece((e.0@, e.1@)),
{
    let c = e.1.centi();
    let mut s = String::new();
    crate::text::push_two_dec(&mut s, c);
    proof {
        assert(s@ =~= score_piece((e.0@, e.1@)));
    }
    s
}

/// Render the aligned report of ranked groups.
#[verifier::rlimit(80)]
fn render_report(
    groups: &Vec<(usize, Vec<(Identifier, Score)>)>,
    Ghost(s): Ghost<Seq<EntryV>>,
) -> (r: String)
    requires
        valid_grouping(s, groups_view(groups@)),
        entries_wf(s),
        forall|p: int| 0 <= p < s.len() ==> (#[trigger] s[p]).1.len() <= 0x1000_0000_0000,
    ensures
        r@ == report_text(groups_view(groups@)),
{
    let ghost gsv = groups_view(groups@);
    let gn = groups.len();

    // widths
    let mut wp: usize = 0;
    let mut wn: usize = 0;
    let mut ws: usize = 0;
    proof {
        assert(Seq::new(0nat, |k: int| pos_piece(gsv[k].0).len() as int) =~= Seq::<int>::empty());
        assert(Seq::new(0nat, |k: int| seq_max_of(group_name_widths(gsv[k].1))) =~= Seq::<
            int,
        >::empty());
        assert(Seq::new(0nat, |k: int| seq_max_of(group_score_widths(gsv[k].1))) =~= Seq::<
            int,
        >::empty());
    }
    let mut k: usize = 0;
    while k < gn
        invariant
            k <= gn,
            gn == groups@.len(),
            gsv == groups_view(groups@),
            valid_grouping(s, gsv),
            entries_wf(s),
            forall|p: int| 0 <= p < s.len() ==> (#[trigger] s[p]).1.len() <= 0x1000_0000_0000,
            wp as int == seq_max_of(Seq::new(k as nat, |x: int| pos_piece(gsv[x].0).len() as int)),
            wn as int == seq_max_of(
                Seq::new(k as nat, |x: int| seq_max_of(group_name_widths(gsv[x].1))),
            ),
            ws as int == seq_max_of(
                Seq::new(k as nat, |x: int| seq_max_of(group_score_widths(gsv[x].1))),
            ),
        decreases gn - k,
    {
        let pp = pos_piece_string(groups[k].0);
        let ppl = pp.as_str().unicode_len();
        if ppl > wp {
            wp = ppl;
        }
        let g = &groups[k].1;
        let glen = g.len();
        let mut gwn: usize = 0;
        let mut gws: usize = 0;
        proof {
            assert(group_name_widths(gsv[k as int].1).take(0) =~= Seq::<int>::empty());
            assert(group_score_widths(gsv[k as int].1).take(0) =~= Seq::<int>::empty());
        }
        let mut p: usize = 0;
        while p < glen
            invariant
                p <= glen,
                glen == g@.len(),
                g@ == groups@[k as int].1@,
                k < gn,
                gn == groups@.len(),
                gsv == groups_view(groups@),
                valid_grouping(s, gsv),
                entries_wf(s),
                forall|q: int| 0 <= q < s.len() ==> (#[trigger] s[q]).1.len() <= 0x1000_0000_0000,
                gwn as int == seq_max_of(group_name_widths(gsv[k as int].1).take(p as int)),
                gws as int == seq_max_of(group_score_widths(gsv[k as int].1).take(p as int)),
            decreases glen - p,
        {
            proof {
                lemma_group_entry_props(s, gsv, k as int, p as int);
            }
            let np = name_piece_string(&g[p]);
            let npl = np.as_str().unicode_len();
            if npl > gwn {
                gwn = npl;
            }
            let sp = score_piece_string(&g[p]);
            let spl = sp.as_str().unicode_len();
            if spl > gws {
                gws = spl;
            }
            proof {
                assert(group_name_widths(gsv[k as int].1).take(p as int + 1).drop_last()
                    =~= group_name_widths(gsv[k as int].1).take(p as int));
                assert(group_score_widths(gsv[k as int].1).take(p as int + 1).drop_last()
                    =~= group_score_widths(gsv[k as int].1).take(p as int));
            }
            p += 1;
        }
        if gwn > wn {
            wn = gwn;
        }
        if gws > ws {
            ws = gws;
        }
        proof {
            assert(group_name_widths(gsv[k as int].1).take(glen as int) =~= group_name_widths(
                gsv[k as int].1,
            ));
            assert(group_score_widths(gsv[k as int].1).take(glen as int) =~= group_score_widths(
                gsv[k as int].1,
            ));
            assert(Seq::new(k as nat + 1, |x: int| pos_piece(gsv[x].0).len() as int).drop_last()
                =~= Seq::new(k as nat, |x: int| pos_piece(gsv[x].0).len() as int));
            assert(Seq::new(
                k as nat + 1,
                |x: int| seq_max_of(group_name_widths(gsv[x].1)),
            ).drop_last() =~= Seq::new(k as nat, |x: int| seq_max_of(group_name_widths(gsv[x].1))));
            assert(Seq::new(
                k as nat + 1,
                |x: int| seq_max_of(group_score_widths(gsv[x].1)),
            ).drop_last() =~= Seq::new(
                k as nat,
                |x: int| seq_max_of(group_score_widths(gsv[x].1)),
            ));
        }
        k += 1;
    }
    proof {
        assert(Seq::new(gn as nat, |x: int| pos_piece(gsv[x].0).len() as int) =~= Seq::new(
            gsv.len(),
            |x: int| pos_piece(gsv[x].0).len() as int,
        ));
        assert(Seq::new(gn as nat, |x: int| seq_max_of(group_name_widths(gsv[x].1))) =~= Seq::new(
            gsv.len(),
            |x: int| seq_max_of(group_name_widths(gsv[x].1)),
        ));
        assert(Seq::new(gn as nat, |x: int| seq_max_of(group_score_widths(gsv[x].1))) =~= Seq::new(
            gsv.len(),
            |x: int| seq_max_of(group_score_widths(gsv[x].1)),
        ));
        assert(wp as int == width_pos(gsv));
        assert(wn as int == width_name(gsv));
        assert(ws as int == width_score(gsv));
    }

    // lines
    let mut out = String::new();
    let mut k: usize = 0;
    while k < gn
        invariant
            k <= gn,
            gn == groups@.len(),
            gsv == groups_view(groups@),
            valid_grouping(s, gsv),
            entries_wf(s),
            forall|q: int| 0 <= q < s.len() ==> (#[trigger] s[q]).1.len() <= 0x1000_0000_0000,
            wp as int == width_pos(gsv),
            wn as int == width_name(gsv),
            ws as int == width_score(gsv),
            out@ == report_upto(gsv, wp as int, wn as int, ws as int, k as int),
        decreases gn - k,
    {
        let g = &groups[k].1;
        let glen = g.len();
        let pos = groups[k].0;
        let mut p: usize = 0;
        while p < glen
            invariant
                p <= glen,
                glen == g@.len(),
                g@ == groups@[k as int].1@,
                pos == groups@[k as int].0,
                k < gn,
                gn == groups@.len(),
                gsv == groups_view(groups@),
                valid_grouping(s, gsv),
                entries_wf(s),
                forall|q: int| 0 <= q < s.len() ==> (#[trigger] s[q]).1.len() <= 0x1000_0000_0000,
                wp as int == width_pos(gsv),
                wn as int == width_name(gsv),
                ws as int == width_score(gsv),
                out@ == report_upto(gsv, wp as int, wn as int, ws as int, k as int)
                    + group_text_upto(gsv[k as int], wp as int, wn as int, ws as int, p as int),
            decreases glen - p,
        {
            proof {
                lemma_group_entry_props(s, gsv, k as int, p as int);
            }
            let ghost line_start = out@;
            let posn: String = if p == 0 {
                pos_piece_string(pos)
            } else {
                String::new()
            };
            crate::text::push_left_pad(&mut out, posn.as_str(), wp);
            out.append(" ");
            let np = name_piece_string(&g[p]);
            crate::text::push_right_pad(&mut out, np.as_str(), wn);
            out.append(" ");
            let sp = score_piece_string(&g[p]);
            crate::text::push_left_pad(&mut out, sp.as_str(), ws);
            out.append("\n");
            proof {
                reveal_strlit(" ");
                reveal_strlit("\n");
                let e = gsv[k as int].1[p as int];
                assert(out@ =~= line_start + line_text(
                    e,
                    if p == 0 {
                        pos_piece(gsv[k as int].0)
                    } else {
                        Seq::<char>::empty()
                    },
                    wp as int,
                    wn as int,
                    ws as int,
                ));
                assert(out@ =~= report_upto(gsv, wp as int, wn as int, ws as int, k as int)
                    + group_text_upto(
                    gsv[k as int],
                    wp as int,
                    wn as int,
                    ws as int,
                    p as int + 1,
                ));
            }
            p += 1;
        }
        proof {
            assert(gsv[k as int].1.len() == glen as int);
            assert(out@ =~= report_upto(gsv, wp as int, wn as int, ws as int, k as int + 1));
        }
        k += 1;
    }
    proof {
        assert(out@ == report_text(gsv));
    }
    out
}

/// Each ranked entry is one of the standings entries, so it inherits
/// their well-formedness and length bound.
proof fn lemma_group_entry_props(s: Seq<EntryV>, gsv: Seq<(int, Seq<EntryV>)>, k: int, p: int)
    requires
        valid_grouping(s, gsv),
        entries_wf(s),
        forall|q: int| 0 <= q < s.len() ==> (#[trigger] s[q]).1.len() <= 0x1000_0000_0000,
        0 <= k < gsv.len(),
        0 <= p < gsv[k].1.len(),
    ensures
        all_nonzero(gsv[k].1[p].1),
        gsv[k].1[p].1.len() <= 0x1000_0000_0000,
{
    lemma_flatten_elem(gsv, k, p);
    let w = choose|w: int| 0 <= w < s.len() && s[w] == gsv[k].1[p];
    assert(all_nonzero(s[w].1));
}

/// Whatever multiset entries are rearranged into, the length bound on
/// their term lists carries over.
proof fn lemma_len_bound_carries(a: Seq<EntryV>, b: Seq<EntryV>, bound: int)
    requires
        a.to_multiset() == b.to_multiset(),
        forall|i: int| 0 <= i < a.len() ==> (#[trigger] a[i]).1.len() <= bound,
    ensures
        forall|i: int| 0 <= i < b.len() ==> (#[trigger] b[i]).1.len() <= bound,
{
    broadcast use vstd::seq_lib::group_to_multiset_ensures;

    assert forall|i: int| 0 <= i < b.len() implies (#[trigger] b[i]).1.len() <= bound by {
        assert(b.contains(b[i]));
        assert(b.to_multiset().count(b[i]) > 0);
        assert(a.contains(b[i]));
        let w = choose|w: int| 0 <= w < a.len() && a[w] == b[i];
        assert(a[w].1.len() <= bound);
    }
}

/// A ranking of a set of events: a tie-grouped competition ranking of the
/// sorted order of their per-participant aggregate.
pub open spec fn ranking_of(events: Seq<EventV>, gs: Seq<(int, Seq<EntryV>)>) -> bool {
    &&& sorted_entries(flatten_groups(gs))
    &&& flatten_groups(gs).to_multiset() == agg_spec(events).to_multiset()
    &&& grouping_structure(gs)
}

impl Event {
    /// The standings report for a set of events: scores are summed per
    /// participant, sorted descending with identifier order breaking
    /// ties, grouped into shared competition positions, and rendered one
    /// line per participant with aligned columns. Fails with `Conv`
    /// exactly when some event cannot be scored.
    ///
    /// The ranking the report renders exists uniquely
    /// (`lemma_ranking_unique`), so the existential below pins the text.
    pub fn standings(events: &[Event]) -> (r: FestiveResult<String>)
        requires
            forall|i: int| 0 <= i < events@.len() ==> event_wf(#[trigger] events@[i]@),
            events@.len() <= 0x1000_0000_0000,
        ensures
            r matches Ok(s) ==> exists|gs: Seq<(int, Seq<EntryV>)>|
                ranking_of(events_view(events@), gs) && s@ == report_text(gs),
            r matches Err(e) ==> e == FestiveError::Conv,
            r is Err ==> exists|i: int|
                0 <= i < events@.len() && !scoreable(#[trigger] events@[i]@),
            (forall|i: int| 0 <= i < events@.len() ==> scoreable(#[trigger] events@[i]@)) ==> r
                is Ok,
    {
        let mut entries = match aggregate(events) {
            Ok(v) => v,
            Err(e) => {
                return Err(e);
            },
        };
        let ghost agg = entries_view(entries@);
        sort_entries(&mut entries);
        proof {
            lemma_len_bound_carries(agg, entries_view(entries@), 0x1000_0000_0000);
        }
        let groups = rank(&entries);
        let report = render_report(&groups, Ghost(entries_view(entries@)));
        proof {
            let gs = groups_view(groups@);
            assert(flatten_groups(gs) == entries_view(entries@));
            assert(ranking_of(events_view(events@), gs));
            assert(report@ == report_text(gs));
        }
        Ok(report)
    }
}

/// The number of entries whose score lies strictly above `q`.
pub open spec fn count_above(s: Seq<EntryV>, q: Rational) -> int
    decreases s.len(),
{
    if s.len() == 0 {
        0
    } else {
        count_above(s.drop_last(), q) + (if rat_lt(q, entry_score(s.last())) {
            1int
        } else {
            0int
        })
    }
}

proof fn lemma_count_above_concat(a: Seq<EntryV>, b: Seq<EntryV>, q: Rational)
    ensures
        count_above(a + b, q) == count_above(a, q) + count_above(b, q),
    decreases b.len(),
{
    if b.len() == 0 {
        assert(a + b =~= a);
    } else {
        lemma_count_above_concat(a, b.drop_last(), q);
        assert((a + b).drop_last() =~= a + b.drop_last());
        assert((a + b).last() == b.last());
    }
}

/// A group whose scores all equal `h` counts fully above any `q` strictly
/// below `h`, and not at all otherwise.
proof fn lemma_count_above_group(g: Seq<EntryV>, h: Rational, q: Rational)
    requires
        entries_wf(g),
        rat_wf(h),
        rat_wf(q),
        forall|p: int| 0 <= p < g.len() ==> rat_eq(entry_score(#[trigger] g[p]), h),
    ensures
        count_above(g, q) == if rat_lt(q, h) {
            g.len() as int
        } else {
            0
        },
    decreases g.len(),
{
    if g.len() > 0 {
        assert(entries_wf(g.drop_last()));
        lemma_count_above_group(g.drop_last(), h, q);
        lemma_sum_recips_wf(g.last().1);
        lemma_rat_eq_lt_right(entry_score(g.last()), h, q);
    }
}

proof fn lemma_flatten_split(gs: Seq<(int, Seq<EntryV>)>, k: int)
    requires
        0 <= k <= gs.len(),
    ensures
        flatten_groups(gs) == flatten_groups(gs.take(k)) + flatten_groups(gs.skip(k)),
    decreases gs.len() - k,
{
    if k == gs.len() {
        assert(gs.take(k) =~= gs);
        assert(gs.skip(k) =~= Seq::<(int, Seq<EntryV>)>::empty());
        assert(flatten_groups(gs.skip(k)) =~= Seq::<EntryV>::empty());
        assert(flatten_groups(gs) + flatten_groups(gs.skip(k)) =~= flatten_groups(gs));
    } else {
        // peel the last group off the suffix
        let gs2 = gs.drop_last();
        if k == gs.len() - 1 {
            assert(gs.take(k) =~= gs2);
            assert(gs.skip(k) =~= seq![gs.last()]);
            assert(flatten_groups(gs.skip(k)) == flatten_groups(
                seq![gs.last()].drop_last(),
            ) + gs.last().1);
            assert(seq![gs.last()].drop_last() =~= Seq::<(int, Seq<EntryV>)>::empty());
            assert(flatten_groups(gs.skip(k)) =~= gs.last().1);
        } else {
            lemma_flatten_split(gs2, k);
            assert(gs2.take(k) =~= gs.take(k));
            assert(gs.skip(k).drop_last() =~= gs2.skip(k));
            assert(gs.skip(k).last() == gs.last());
            assert(flatten_groups(gs.skip(k)) == flatten_groups(gs2.skip(k)) + gs.last().1);
            assert(flatten_groups(gs.take(k)) + (flatten_groups(gs2.skip(k)) + gs.last().1)
                =~= (flatten_groups(gs.take(k)) + flatten_groups(gs2.skip(k))) + gs.last().1);
        }
    }
}

/// Each group's entries all satisfy the standings well-formedness.
proof fn lemma_group_wf(s: Seq<EntryV>, gs: Seq<(int, Seq<EntryV>)>, k: int)
    requires
        valid_grouping(s, gs),
        entries_wf(s),
        0 <= k < gs.len(),
    ensures
        entries_wf(gs[k].1),
{
    assert forall|p: int| 0 <= p < gs[k].1.len() implies all_nonzero(
        (#[trigger] gs[k].1[p]).1,
    ) by {
        lemma_flatten_elem(gs, k, p);
        let w = choose|w: int| 0 <= w < s.len() && s[w] == gs[k].1[p];
        assert(all_nonzero(s[w].1));
    }
}

/// Group heads strictly descend across any gap.
proof fn lemma_heads_descend(
    s: Seq<EntryV>,
    gs: Seq<(int, Seq<EntryV>)>,
    j: int,
    k: int,
)
    requires
        valid_grouping(s, gs),
        entries_wf(s),
        0 <= j < k < gs.len(),
    ensures
        rat_lt(entry_score(gs[k].1[0]), entry_score(gs[j].1[0])),
    decreases k - j,
{
    lemma_group_wf(s, gs, j);
    lemma_group_wf(s, gs, k);
    lemma_sum_recips_wf(gs[j].1[0].1);
    lemma_sum_recips_wf(gs[k].1[0].1);
    if j + 1 == k {
    } else {
        lemma_heads_descend(s, gs, j + 1, k);
        lemma_group_wf(s, gs, j + 1);
        lemma_sum_recips_wf(gs[j + 1].1[0].1);
        lemma_rat_lt_trans(
            entry_score(gs[k].1[0]),
            entry_score(gs[j + 1].1[0]),
            entry_score(gs[j].1[0]),
        );
    }
}

/// A group's position is one more than the entries that come before it.
proof fn lemma_position_prefix(s: Seq<EntryV>, gs: Seq<(int, Seq<EntryV>)>, k: int)
    requires
        valid_grouping(s, gs),
        0 <= k < gs.len(),
    ensures
        gs[k].0 == 1 + flatten_groups(gs.take(k)).len(),
    decreases k,
{
    if k == 0 {
        assert(gs.take(0) =~= Seq::<(int, Seq<EntryV>)>::empty());
    } else {
        lemma_position_prefix(s, gs, k - 1);
        assert(gs[k].0 == gs[k - 1].0 + gs[k - 1].1.len());
        assert(gs.take(k).drop_last() =~= gs.take(k - 1));
        assert(gs.take(k).last() == gs[k - 1]);
        assert(flatten_groups(gs.take(k)) == flatten_groups(gs.take(k - 1)) + gs[k - 1].1);
    }
}

/// How many entries lie strictly above the `k`-th group's score: exactly
/// the entries of the earlier groups.
proof fn lemma_count_above_prefix(s: Seq<EntryV>, gs: Seq<(int, Seq<EntryV>)>, k: int)
    requires
        valid_grouping(s, gs),
        entries_wf(s),
        0 <= k < gs.len(),
    ensures
        count_above(s, entry_score(gs[k].1[0])) == flatten_groups(gs.take(k)).len(),
    decreases gs.len() - k,
{
    let q = entry_score(gs[k].1[0]);
    lemma_group_wf(s, gs, k);
    lemma_sum_recips_wf(gs[k].1[0].1);
    lemma_flatten_split(gs, k);
    lemma_count_above_concat(flatten_groups(gs.take(k)), flatten_groups(gs.skip(k)), q);
    // the earlier groups count fully
    lemma_prefix_counts(s, gs, k, q);
    // the groups from `k` on count nothing
    lemma_suffix_counts(s, gs, k, q);
}

/// Every entry of the groups before `k` scores strictly above the `k`-th
/// head.
proof fn lemma_prefix_counts(s: Seq<EntryV>, gs: Seq<(int, Seq<EntryV>)>, k: int, q: Rational)
    requires
        valid_grouping(s, gs),
        entries_wf(s),
        0 <= k < gs.len(),
        q == entry_score(gs[k].1[0]),
    ensures
        count_above(flatten_groups(gs.take(k)), q) == flatten_groups(gs.take(k)).len(),
    decreases k,
{
    lemma_group_wf(s, gs, k);
    lemma_sum_recips_wf(gs[k].1[0].1);
    if k == 0 {
        assert(gs.take(0) =~= Seq::<(int, Seq<EntryV>)>::empty());
    } else {
        // count the last prefix group fully, recurse on the rest
        let shorter = gs.take(k - 1);
        assert(gs.take(k).drop_last() =~= shorter);
        assert(gs.take(k).last() == gs[k - 1]);
        assert(flatten_groups(gs.take(k)) == flatten_groups(shorter) + gs[k - 1].1);
        lemma_count_above_concat(flatten_groups(shorter), gs[k - 1].1, q);
        lemma_group_wf(s, gs, k - 1);
        lemma_sum_recips_wf(gs[k - 1].1[0].1);
        lemma_heads_descend(s, gs, k - 1, k);
        lemma_count_above_group(gs[k - 1].1, entry_score(gs[k - 1].1[0]), q);
        lemma_prefix_counts_helper(s, gs, k, q, k - 1);
    }
}

/// Recursion of `lemma_prefix_counts` over the earlier groups.
proof fn lemma_prefix_counts_helper(
    s: Seq<EntryV>,
    gs: Seq<(int, Seq<EntryV>)>,
    k: int,
    q: Rational,
    j: int,
)
    requires
        valid_grouping(s, gs),
        entries_wf(s),
        0 <= j <= k < gs.len(),
        q == entry_score(gs[k].1[0]),
    ensures
        count_above(flatten_groups(gs.take(j)), q) == flatten_groups(gs.take(j)).len(),
    decreases j,
{
    lemma_group_wf(s, gs, k);
    lemma_sum_recips_wf(gs[k].1[0].1);
    if j == 0 {
        assert(gs.take(0) =~= Seq::<(int, Seq<EntryV>)>::empty());
    } else {
        lemma_prefix_counts_helper(s, gs, k, q, j - 1);
        assert(gs.take(j).drop_last() =~= gs.take(j - 1));
        assert(gs.take(j).last() == gs[j - 1]);
        assert(flatten_groups(gs.take(j)) == flatten_groups(gs.take(j - 1)) + gs[j - 1].1);
        lemma_count_above_concat(flatten_groups(gs.take(j - 1)), gs[j - 1].1, q);
        lemma_group_wf(s, gs, j - 1);
        lemma_sum_recips_wf(gs[j - 1].1[0].1);
        lemma_heads_descend(s, gs, j - 1, k);
        lemma_count_above_group(gs[j - 1].1, entry_score(gs[j - 1].1[0]), q);
    }
}

/// No entry from the `k`-th group on scores strictly above its head.
proof fn lemma_suffix_counts(s: Seq<EntryV>, gs: Seq<(int, Seq<EntryV>)>, k: int, q: Rational)
    requires
        valid_grouping(s, gs),
        entries_wf(s),
        0 <= k < gs.len(),
        q == entry_score(gs[k].1[0]),
    ensures
        count_above(flatten_groups(gs.skip(k)), q) == 0,
    decreases gs.len() - k,
{
    lemma_group_wf(s, gs, k);
    lemma_sum_recips_wf(gs[k].1[0].1);
    lemma_suffix_counts_helper(s, gs, k, q, gs.len() as int);
}

/// Count over the suffix groups `k..j`, by downward recursion on `j`.
proof fn lemma_suffix_counts_helper(
    s: Seq<EntryV>,
    gs: Seq<(int, Seq<EntryV>)>,
    k: int,
    q: Rational,
    j: int,
)
    requires
        valid_grouping(s, gs),
        entries_wf(s),
        0 <= k < gs.len(),
        k <= j <= gs.len(),
        q == entry_score(gs[k].1[0]),
    ensures
        count_above(flatten_groups(gs.subrange(k, j)), q) == 0,
    decreases j - k,
{
    lemma_group_wf(s, gs, k);
    lemma_sum_recips_wf(gs[k].1[0].1);
    if j == k {
        assert(gs.subrange(k, j) =~= Seq::<(int, Seq<EntryV>)>::empty());
    } else {
        lemma_suffix_counts_helper(s, gs, k, q, j - 1);
        assert(gs.subrange(k, j).drop_last() =~= gs.subrange(k, j - 1));
        assert(gs.subrange(k, j).last() == gs[j - 1]);
        assert(flatten_groups(gs.subrange(k, j)) == flatten_groups(gs.subrange(k, j - 1)) + gs[j
            - 1].1);
        lemma_count_above_concat(flatten_groups(gs.subrange(k, j - 1)), gs[j - 1].1, q);
        lemma_group_wf(s, gs, j - 1);
        lemma_sum_recips_wf(gs[j - 1].1[0].1);
        if j - 1 == k {
            lemma_count_above_group(gs[k].1, q, q);
        } else {
            lemma_heads_descend(s, gs, k, j - 1);
            if rat_lt(q, entry_score(gs[j - 1].1[0])) {
                lemma_rat_lt_trans(
                    q,
                    entry_score(gs[j - 1].1[0]),
                    q,
                );
            }
            lemma_count_above_group(gs[j - 1].1, entry_score(gs[j - 1].1[0]), q);
        }
    }
}

/// Competition ranking: every tied group's shared position is one more
/// than the number of participants with a strictly greater score, and the
/// next distinct group's position is that count plus the size of the tied
/// group.
pub proof fn lemma_rank_positions(s: Seq<EntryV>, gs: Seq<(int, Seq<EntryV>)>, k: int)
    requires
        valid_grouping(s, gs),
        entries_wf(s),
        0 <= k < gs.len(),
    ensures
        gs[k].0 == 1 + count_above(s, entry_score(gs[k].1[0])),
        k + 1 < gs.len() ==> gs[k + 1].0 == count_above(s, entry_score(gs[k].1[0])) + gs[k].1.len()
            + 1,
{
    lemma_position_prefix(s, gs, k);
    lemma_count_above_prefix(s, gs, k);
}

/// Two well-formed entries neither of which stands before the other
/// carry the same identifier.
proof fn lemma_entry_tied(a: EntryV, b: EntryV)
    requires
        all_nonzero(a.1),
        all_nonzero(b.1),
        !entry_before(a, b),
        !entry_before(b, a),
    ensures
        a.0 == b.0,
{
    lemma_sum_recips_wf(a.1);
    lemma_sum_recips_wf(b.1);
    lemma_rat_connected(entry_score(a), entry_score(b));
    lemma_id_connected(a.0, b.0);
}

/// A sorted arrangement of entries with pairwise distinct identifiers is
/// unique: two sorted sequences holding the same entries are equal.
pub proof fn lemma_sorted_unique(a: Seq<EntryV>, b: Seq<EntryV>)
    requires
        entries_wf(a),
        a.to_multiset() == b.to_multiset(),
        sorted_entries(a),
        sorted_entries(b),
        forall|i: int, j: int| 0 <= i < j < a.len() ==> (#[trigger] a[i]).0 != (#[trigger] a[j]).0,
    ensures
        a == b,
    decreases a.len(),
{
    broadcast use vstd::seq_lib::group_to_multiset_ensures;

    if a.len() == 0 {
        assert(a.len() == a.to_multiset().len());
        assert(b.len() == b.to_multiset().len());
        assert(b.len() == 0);
        assert(a =~= b);
    } else {
        assert(a.len() == a.to_multiset().len());
        assert(b.len() == b.to_multiset().len());
        assert(b.len() == a.len());
        // the head of each sequence is the same entry: both lie in the
        // common multiset, and each is no later than the other
        assert(a.contains(a[0]));
        assert(b.to_multiset().count(a[0]) > 0);
        assert(b.contains(a[0]));
        let k = choose|k: int| 0 <= k < b.len() && b[k] == a[0];
        assert(a.to_multiset().count(b[0]) > 0);
        assert(a.contains(b[0]));
        let w = choose|w: int| 0 <= w < a.len() && a[w] == b[0];
        if a[0] != b[0] {
            assert(k != 0 && w != 0);
            assert(!entry_before(b[k], b[0]));
            assert(!entry_before(a[w], a[0]));
            assert(all_nonzero(a[0].1));
            assert(all_nonzero(a[w].1));
            assert(a[0].0 != a[w].0);
            lemma_entry_tied(a[0], b[0]);
        }
        // drop the shared head from both and recurse; removing `b[k]`
        // leaves the same multiset as removing `b[0]`
        let a2 = a.drop_first();
        let b2 = b.drop_first();
        assert(a2 =~= a.remove(0));
        assert(b2 =~= b.remove(0));
        assert(a2.to_multiset() == a.to_multiset().remove(a[0]));
        assert(b2.to_multiset() == b.to_multiset().remove(b[0]));
        assert(a2.to_multiset() == b2.to_multiset());
        assert(entries_wf(a2)) by {
            assert(forall|i: int| 0 <= i < a2.len() ==> #[trigger] a2[i] == a[i + 1]);
        }
        assert(sorted_entries(a2)) by {
            assert(forall|i: int| 0 <= i < a2.len() ==> #[trigger] a2[i] == a[i + 1]);
        }
        assert(sorted_entries(b2)) by {
            assert(forall|i: int| 0 <= i < b2.len() ==> #[trigger] b2[i] == b[i + 1]);
        }
        assert(forall|i: int, j: int|
            0 <= i < j < a2.len() ==> (#[trigger] a2[i]).0 != (#[trigger] a2[j]).0) by {
            assert(forall|i: int| 0 <= i < a2.len() ==> #[trigger] a2[i] == a[i + 1]);
        }
        lemma_sorted_unique(a2, b2);
        assert(a =~= b) by {
            assert(forall|i: int| 1 <= i < a.len() ==> #[trigger] a[i] == a2[i - 1]);
            assert(forall|i: int| 1 <= i < b.len() ==> #[trigger] b[i] == b2[i - 1]);
        }
    }
}

/// The flattening of a single leading group is that group's entries.
proof fn lemma_flatten_single(gs: Seq<(int, Seq<EntryV>)>)
    requires
        gs.len() >= 1,
    ensures
        flatten_groups(gs.take(1)) =~= gs[0].1,
{
    assert(gs.take(1).drop_last() =~= Seq::<(int, Seq<EntryV>)>::empty());
    assert(flatten_groups(Seq::<(int, Seq<EntryV>)>::empty()) =~= Seq::<EntryV>::empty());
    assert(gs.take(1).last() == gs[0]);
    assert(flatten_groups(gs.take(1)) == flatten_groups(gs.take(1).drop_last()) + gs.take(
        1,
    ).last().1);
    assert(Seq::<EntryV>::empty() + gs[0].1 =~= gs[0].1);
}

/// Laid end to end, non-empty groups need at least one entry each.
proof fn lemma_flatten_nonempty(gs: Seq<(int, Seq<EntryV>)>)
    requires
        forall|k: int| 0 <= k < gs.len() ==> (#[trigger] gs[k].1).len() >= 1,
        flatten_groups(gs).len() == 0,
    ensures
        gs.len() == 0,
{
    if gs.len() > 0 {
        assert(flatten_groups(gs) == flatten_groups(gs.drop_last()) + gs.last().1);
    }
}

/// Group boundaries and positions are forced by the order itself, so two
/// groupings of the same order that share a starting position coincide.
proof fn lemma_grouping_unique_from(
    s: Seq<EntryV>,
    g1: Seq<(int, Seq<EntryV>)>,
    g2: Seq<(int, Seq<EntryV>)>,
    pos: int,
)
    requires
        entries_wf(s),
        flatten_groups(g1) == s,
        flatten_groups(g2) == s,
        grouping_chain(g1),
        grouping_chain(g2),
        g1.len() > 0 ==> g1[0].0 == pos,
        g2.len() > 0 ==> g2[0].0 == pos,
    ensures
        g1 == g2,
    decreases s.len(),
{
    if s.len() == 0 {
        lemma_flatten_nonempty(g1);
        lemma_flatten_nonempty(g2);
        assert(g1 =~= g2);
    } else {
        assert(g1.len() > 0 && g2.len() > 0) by {
            if g1.len() == 0 {
                assert(flatten_groups(g1) =~= Seq::<EntryV>::empty());
            }
            if g2.len() == 0 {
                assert(flatten_groups(g2) =~= Seq::<EntryV>::empty());
            }
        }
        let h1 = g1[0].1;
        let h2 = g2[0].1;
        lemma_flatten_split(g1, 1);
        lemma_flatten_split(g2, 1);
        lemma_flatten_single(g1);
        lemma_flatten_single(g2);
        assert(s == h1 + flatten_groups(g1.skip(1)));
        assert(s == h2 + flatten_groups(g2.skip(1)));
        assert(h1.len() == h2.len()) by {
            if h1.len() < h2.len() {
                lemma_boundary_clash(s, g1, g2);
            } else if h2.len() < h1.len() {
                lemma_boundary_clash(s, g2, g1);
            }
        }
        assert(h1 =~= h2) by {
            assert(forall|i: int| 0 <= i < h1.len() ==> #[trigger] h1[i] == s[i]);
            assert(forall|i: int| 0 <= i < h2.len() ==> #[trigger] h2[i] == s[i]);
        }
        assert(g1[0] == g2[0]);
        // the tails group the remaining order from the advanced position
        let len = h1.len() as int;
        let s2 = s.skip(len);
        let t1 = g1.skip(1);
        let t2 = g2.skip(1);
        assert(flatten_groups(t1) =~= s2);
        assert(flatten_groups(t2) =~= s2);
        assert(entries_wf(s2)) by {
            assert(forall|i: int| 0 <= i < s2.len() ==> #[trigger] s2[i] == s[i + len]);
        }
        lemma_tail_structure(g1);
        lemma_tail_structure(g2);
        assert(t1.len() > 0 ==> t1[0].0 == pos + len);
        assert(t2.len() > 0 ==> t2[0].0 == pos + len);
        lemma_grouping_unique_from(s2, t1, t2, pos + len);
        assert(g1 =~= g2) by {
            assert(forall|k: int| 1 <= k < g1.len() ==> #[trigger] g1[k] == t1[k - 1]);
            assert(forall|k: int| 1 <= k < g2.len() ==> #[trigger] g2[k] == t2[k - 1]);
        }
    }
}

/// A grouping whose first group is shorter than another's puts the entry
/// at its boundary both inside the other's first tied group and strictly
/// below that group's head, which cannot both hold.
proof fn lemma_boundary_clash(
    s: Seq<EntryV>,
    g1: Seq<(int, Seq<EntryV>)>,
    g2: Seq<(int, Seq<EntryV>)>,
)
    requires
        entries_wf(s),
        flatten_groups(g1) == s,
        flatten_groups(g2) == s,
        grouping_chain(g1),
        grouping_chain(g2),
        g1.len() > 0,
        g2.len() > 0,
        g1[0].1.len() < g2[0].1.len(),
    ensures
        rat_lt(entry_score(s[g1[0].1.len() as int]), entry_score(s[0])),
        rat_eq(entry_score(s[g1[0].1.len() as int]), entry_score(s[0])),
{
    let h1 = g1[0].1;
    let h2 = g2[0].1;
    let x = h1.len() as int;
    lemma_flatten_split(g1, 1);
    lemma_flatten_split(g2, 1);
    lemma_flatten_single(g1);
    lemma_flatten_single(g2);
    // in the second grouping, the entry at the boundary ties with the head
    assert(s[x] == h2[x]);
    assert(s[0] == h2[0]);
    assert(rat_eq(entry_score(g2[0].1[x]), entry_score(g2[0].1[0])));
    // in the first grouping, the same entry opens the next group, strictly
    // below the head
    let t1 = g1.skip(1);
    assert(flatten_groups(t1).len() > 0);
    assert(t1.len() > 0) by {
        if t1.len() == 0 {
            assert(flatten_groups(t1) =~= Seq::<EntryV>::empty());
        }
    }
    lemma_flatten_split(t1, 1);
    lemma_flatten_single(t1);
    assert(s[x] == t1[0].1[0]) by {
        assert(flatten_groups(t1)[0] == t1[0].1[0]);
        assert(s == h1 + flatten_groups(t1));
    }
    assert(t1[0] == g1[1]);
    assert(s[0] == h1[0]);
    assert(rat_lt(entry_score(g1[1].1[0]), entry_score(g1[0].1[0])));
}

/// Shifting one group off the front keeps the chain shape.
proof fn lemma_tail_structure(gs: Seq<(int, Seq<EntryV>)>)
    requires
        grouping_chain(gs),
        gs.len() > 0,
    ensures
        grouping_chain(gs.skip(1)),
        gs.len() > 1 ==> gs.skip(1)[0].0 == gs[0].0 + gs[0].1.len(),
{
    let t = gs.skip(1);
    assert(forall|k: int| 0 <= k < t.len() ==> #[trigger] t[k] == gs[k + 1]);
    assert forall|k: int| 0 <= k < t.len() - 1 implies rat_lt(
        entry_score(t[k + 1].1[0]),
        entry_score((#[trigger] t[k].1)[0]),
    ) by {
        assert(t[k] == gs[k + 1] && t[k + 1] == gs[k + 2]);
    }
    assert forall|k: int| 0 <= k < t.len() - 1 implies t[k + 1].0 == t[k].0 + (
    #[trigger] t[k].1).len() by {
        assert(t[k] == gs[k + 1] && t[k + 1] == gs[k + 2]);
    }
}

/// A standings order has at most one tie-grouped competition ranking.
pub proof fn lemma_grouping_unique(
    s: Seq<EntryV>,
    g1: Seq<(int, Seq<EntryV>)>,
    g2: Seq<(int, Seq<EntryV>)>,
)
    requires
        entries_wf(s),
        valid_grouping(s, g1),
        valid_grouping(s, g2),
    ensures
        g1 == g2,
{
    lemma_grouping_unique_from(s, g1, g2, 1);
}

/// An absent identifier is at no index.
proof fn lemma_find_id_missing(s: Seq<EntryV>, id: IdentifierV)
    requires
        find_id(s, id) == -1,
    ensures
        forall|p: int| 0 <= p < s.len() ==> (#[trigger] s[p]).0 != id,
    decreases s.len(),
{
    if s.len() > 0 {
        lemma_find_id_valid(s.skip(1), id);
        lemma_find_id_missing(s.skip(1), id);
        assert forall|p: int| 0 <= p < s.len() implies (#[trigger] s[p]).0 != id by {
            if p > 0 {
                assert(s[p] == s.skip(1)[p - 1]);
            }
        }
    }
}

/// The aggregate keys participants uniquely: no identifier owns two
/// entries.
pub proof fn lemma_agg_distinct(events: Seq<EventV>)
    ensures
        forall|i: int, j: int|
            0 <= i < j < agg_spec(events).len() ==> (#[trigger] agg_spec(events)[i]).0 != (
            #[trigger] agg_spec(events)[j]).0,
    decreases events.len(),
{
    if events.len() > 0 {
        lemma_agg_distinct(events.drop_last());
        let pre = agg_spec(events.drop_last());
        let id = events.last().id;
        let cur = agg_spec(events);
        let k = find_id(pre, id);
        lemma_find_id_valid(pre, id);
        if k == -1 {
            lemma_find_id_missing(pre, id);
            assert(cur == pre.push((id, seq![score_term(events.last()) as i64])));
            assert forall|i: int, j: int| 0 <= i < j < cur.len() implies (
            #[trigger] cur[i]).0 != (#[trigger] cur[j]).0 by {
                if j < pre.len() {
                    assert(cur[i] == pre[i] && cur[j] == pre[j]);
                } else {
                    assert(cur[i] == pre[i] && cur[j].0 == id);
                }
            }
        } else {
            assert forall|i: int, j: int| 0 <= i < j < cur.len() implies (
            #[trigger] cur[i]).0 != (#[trigger] cur[j]).0 by {
                assert(cur[i].0 == pre[i].0 && cur[j].0 == pre[j].0);
            }
        }
    }
}

/// Whatever multiset entries are rearranged into, their well-formedness
/// carries over.
proof fn lemma_wf_entries_carries(a: Seq<EntryV>, b: Seq<EntryV>)
    requires
        a.to_multiset() == b.to_multiset(),
        entries_wf(a),
    ensures
        entries_wf(b),
{
    broadcast use vstd::seq_lib::group_to_multiset_ensures;

    assert forall|i: int| 0 <= i < b.len() implies all_nonzero((#[trigger] b[i]).1) by {
        assert(b.contains(b[i]));
        assert(b.to_multiset().count(b[i]) > 0);
        assert(a.contains(b[i]));
        let w = choose|w: int| 0 <= w < a.len() && a[w] == b[i];
        assert(all_nonzero(a[w].1));
    }
}

/// Whatever multiset entries are rearranged into, distinct identifiers
/// stay distinct.
proof fn lemma_distinct_carries(a: Seq<EntryV>, b: Seq<EntryV>)
    requires
        a.to_multiset() == b.to_multiset(),
        forall|i: int, j: int| 0 <= i < j < a.len() ==> (#[trigger] a[i]).0 != (#[trigger] a[j]).0,
    ensures
        forall|i: int, j: int| 0 <= i < j < b.len() ==> (#[trigger] b[i]).0 != (#[trigger] b[j]).0,
{
    broadcast use vstd::seq_lib::group_to_multiset_ensures;

    assert forall|i: int, j: int| 0 <= i < j < b.len() implies (#[trigger] b[i]).0 != (
    #[trigger] b[j]).0 by {
        if b[i].0 == b[j].0 {
            if b[i] == b[j] {
                // the entry would occur twice in both multisets
                let e = b[i];
                assert(b.remove(i).to_multiset() == b.to_multiset().remove(e));
                assert(b.remove(i)[j - 1] == e);
                assert(b.remove(i).contains(e));
                assert(b.to_multiset().remove(e).count(e) > 0);
                assert(a.to_multiset().count(e) >= 2);
                assert(a.contains(e));
                let w = choose|w: int| 0 <= w < a.len() && a[w] == e;
                assert(a.remove(w).to_multiset() == a.to_multiset().remove(e));
                assert(a.remove(w).to_multiset().count(e) > 0);
                assert(a.remove(w).contains(e));
                let v = choose|v: int| 0 <= v < a.remove(w).len() && a.remove(w)[v] == e;
                if v < w {
                    assert(a[v] == e);
                } else {
                    assert(a[v + 1] == e);
                }
            } else {
                // two distinct entries of the aggregate would share a key
                assert(b.contains(b[i]));
                assert(b.to_multiset().count(b[i]) > 0);
                assert(a.contains(b[i]));
                assert(b.contains(b[j]));
                assert(b.to_multiset().count(b[j]) > 0);
                assert(a.contains(b[j]));
                let w1 = choose|w1: int| 0 <= w1 < a.len() && a[w1] == b[i];
                let w2 = choose|w2: int| 0 <= w2 < a.len() && a[w2] == b[j];
                assert(w1 != w2);
            }
        }
    }
}

/// A set of well-formed events has at most one ranking: the standings
/// order and its tie-grouped competition positions are fully determined.
pub proof fn lemma_ranking_unique(
    events: Seq<EventV>,
    gs1: Seq<(int, Seq<EntryV>)>,
    gs2: Seq<(int, Seq<EntryV>)>,
)
    requires
        entries_wf(agg_spec(events)),
        ranking_of(events, gs1),
        ranking_of(events, gs2),
    ensures
        gs1 == gs2,
{
    let agg = agg_spec(events);
    let f1 = flatten_groups(gs1);
    let f2 = flatten_groups(gs2);
    lemma_agg_distinct(events);
    lemma_wf_entries_carries(agg, f1);
    lemma_wf_entries_carries(agg, f2);
    lemma_distinct_carries(agg, f1);
    assert(f1.to_multiset() == f2.to_multiset());
    lemma_sorted_unique(f1, f2);
    lemma_grouping_unique(f1, gs1, gs2);
}

} // verus!
