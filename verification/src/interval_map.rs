//! The interval map: an ordered, disjoint set of labeled address ranges.
//! Insertion merges overlapping or touching same-label blocks; point queries
//! find the entry covering an address.

use vstd::prelude::*;

verus! {

/// Mathematical form of one stored entry.
pub ghost struct Ent {
    pub start: int,
    pub len: int,
    pub label: Seq<char>,
}

pub open spec fn ent_end(e: Ent) -> int {
    e.start + e.len
}

pub open spec fn covers(e: Ent, a: int) -> bool {
    e.start <= a < e.start + e.len
}

/// The entry covering address `a`, scanning entries left to right.
pub open spec fn cov_ent(s: Seq<Ent>, a: int) -> Option<Ent>
    decreases s.len(),
{
    if s.len() == 0 {
        None
    } else if covers(s[0], a) {
        Some(s[0])
    } else {
        cov_ent(s.drop_first(), a)
    }
}

/// The label covering address `a`, if any: the map's pointwise meaning.
pub open spec fn cov_label(s: Seq<Ent>, a: int) -> Option<Seq<char>> {
    match cov_ent(s, a) {
        Some(e) => Some(e.label),
        None => None,
    }
}

pub open spec fn entry_bounds_ok(e: Ent) -> bool {
    0 <= e.start && 1 <= e.len && e.start + e.len <= 0x1_0000_0000
}

/// Well-formed entry sequence: in-range entries, strictly ordered and
/// disjoint, and no two touching entries share a label (they would have
/// been merged).
pub open spec fn wf_seq(s: Seq<Ent>) -> bool {
    (forall|i: int| 0 <= i < s.len() ==> entry_bounds_ok(#[trigger] s[i])) && (forall|
        i: int,
        j: int,
    |
        0 <= i < j < s.len() ==> ent_end(#[trigger] s[i]) <= (#[trigger] s[j]).start) && (forall|
        i: int,
    |
        0 <= i && i + 1 < s.len() && ent_end(#[trigger] s[i]) == s[i + 1].start ==> s[i].label != s[
            i + 1
        ].label)
}

pub proof fn lemma_wf_drop_first(s: Seq<Ent>)
    requires
        wf_seq(s),
        s.len() > 0,
    ensures
        wf_seq(s.drop_first()),
{
    let t = s.drop_first();
    assert forall|i: int| 0 <= i < t.len() implies entry_bounds_ok(#[trigger] t[i]) by {
        assert(t[i] == s[i + 1]);
    }
    assert forall|i: int, j: int| 0 <= i < j < t.len() implies ent_end(#[trigger] t[i])
        <= (#[trigger] t[j]).start by {
        assert(t[i] == s[i + 1] && t[j] == s[j + 1]);
    }
    assert forall|i: int|
        0 <= i && i + 1 < t.len() && ent_end(#[trigger] t[i]) == t[i + 1].start implies t[i].label
        != t[i + 1].label by {
        assert(t[i] == s[i + 1] && t[i + 1] == s[i + 2]);
    }
}

/// In a disjoint sequence, the entry found for a covered address is the
/// covering one.
pub proof fn lemma_cov_of_entry(s: Seq<Ent>, i: int, a: int)
    requires
        wf_seq(s),
        0 <= i < s.len(),
        covers(s[i], a),
    ensures
        cov_ent(s, a) == Some(s[i]),
    decreases s.len(),
{
    if i == 0 {
    } else {
        assert(ent_end(s[0]) <= s[i].start);
        assert(!covers(s[0], a));
        lemma_wf_drop_first(s);
        assert(s.drop_first()[i - 1] == s[i]);
        lemma_cov_of_entry(s.drop_first(), i - 1, a);
    }
}

/// An address no entry covers has no label.
pub proof fn lemma_cov_none(s: Seq<Ent>, a: int)
    requires
        forall|i: int| 0 <= i < s.len() ==> !covers(#[trigger] s[i], a),
    ensures
        cov_ent(s, a) is None,
    decreases s.len(),
{
    if s.len() > 0 {
        assert forall|i: int| 0 <= i < s.drop_first().len() implies !covers(
            #[trigger] s.drop_first()[i],
            a,
        ) by {
            assert(s.drop_first()[i] == s[i + 1]);
        }
        lemma_cov_none(s.drop_first(), a);
    }
}

/// A found entry is a covering member of the sequence.
pub proof fn lemma_cov_member(s: Seq<Ent>, a: int)
    ensures
        cov_ent(s, a) matches Some(e) ==> exists|i: int|
            0 <= i < s.len() && s[i] == e && covers(#[trigger] s[i], a),
    decreases s.len(),
{
    if s.len() > 0 && !covers(s[0], a) {
        lemma_cov_member(s.drop_first(), a);
        if cov_ent(s, a) is Some {
            let e = cov_ent(s.drop_first(), a)->Some_0;
            let i = choose|i: int|
                0 <= i < s.drop_first().len() && s.drop_first()[i] == e && covers(
                    #[trigger] s.drop_first()[i],
                    a,
                );
            assert(s[i + 1] == s.drop_first()[i]);
            assert(covers(s[i + 1], a));
        }
    }
}

/// Coverage lookup distributes over concatenation, preferring the left part.
pub proof fn lemma_cov_append(s1: Seq<Ent>, s2: Seq<Ent>, a: int)
    ensures
        cov_ent(s1 + s2, a) == if cov_ent(s1, a) is Some {
            cov_ent(s1, a)
        } else {
            cov_ent(s2, a)
        },
    decreases s1.len(),
{
    if s1.len() == 0 {
        assert(s1 + s2 =~= s2);
    } else {
        assert((s1 + s2)[0] == s1[0]);
        assert((s1 + s2).drop_first() =~= s1.drop_first() + s2);
        lemma_cov_append(s1.drop_first(), s2, a);
    }
}

/// Does the block `[st, st + ln)` overlap an entry carrying another label?
/// Such an overlap is a data-quality condition the merge does not resolve.
pub open spec fn foreign_overlap(s: Seq<Ent>, st: int, ln: int, lb: Seq<char>) -> bool {
    exists|i: int|
        0 <= i < s.len() && (#[trigger] s[i]).label != lb && s[i].start < st + ln && st < ent_end(
            s[i],
        )
}

/// Pointwise coverage after inserting the block `[st, st + ln)` with label
/// `lb`: the block's addresses take the new label, all others keep theirs.
pub open spec fn cov_upd(s: Seq<Ent>, st: int, ln: int, lb: Seq<char>, a: int) -> Option<
    Seq<char>,
> {
    if st <= a < st + ln {
        Some(lb)
    } else {
        cov_label(s, a)
    }
}

/// Shared hypotheses of the splice lemmas: entries `[i, j)` of `s` are the
/// same-label run to be replaced, together with the block `[st, st + ln)`,
/// by the single entry `m`.
pub open spec fn splice_pre(s: Seq<Ent>, i: int, j: int, m: Ent, st: int, ln: int) -> bool {
    &&& wf_seq(s)
    &&& 0 <= i <= j <= s.len()
    &&& entry_bounds_ok(m)
    &&& 0 <= st
    &&& 1 <= ln
    &&& st + ln <= 0x1_0000_0000
    &&& m.start <= st
    &&& st + ln <= m.start + m.len
    &&& (forall|k: int| 0 <= k < i ==> ent_end(#[trigger] s[k]) <= m.start)
    &&& (forall|k: int| 0 <= k < i && ent_end(#[trigger] s[k]) == m.start ==> s[k].label != m.label)
    &&& (forall|k: int|
        i <= k < j ==> (#[trigger] s[k]).label == m.label && m.start <= s[k].start && ent_end(s[k])
            <= m.start + m.len)
    &&& (forall|k: int| j <= k < s.len() ==> (#[trigger] s[k]).start >= m.start + m.len)
    &&& (forall|k: int|
        j <= k < s.len() && (#[trigger] s[k]).start == m.start + m.len ==> s[k].label != m.label)
    &&& (m.start < st ==> i < j && s[i].start == m.start && ent_end(s[i]) >= st)
    &&& (st + ln < m.start + m.len ==> i < j && ent_end(s[j - 1]) == m.start + m.len && s[j
        - 1].start <= st + ln)
}

/// What the window scans of `insert` establish: entries `[i, j)` all carry
/// the inserted label and reach the block; entries past `j` lie at or past
/// the block's end, touching it only with another label.
proof fn lemma_window_facts(
    s: Seq<Ent>,
    st: int,
    ln: int,
    lb: Seq<char>,
    i0: int,
    i: int,
    j: int,
    j0: int,
    skipped: bool,
)
    requires
        wf_seq(s),
        !foreign_overlap(s, st, ln, lb),
        1 <= ln,
        0 <= i0 <= i <= j <= j0 <= s.len(),
        forall|k: int| 0 <= k < i0 ==> ent_end(#[trigger] s[k]) < st,
        i0 < s.len() ==> ent_end(s[i0]) >= st,
        skipped ==> i == i0 + 1 && i0 < s.len() && ent_end(s[i0]) == st && s[i0].label != lb,
        !skipped ==> i == i0,
        forall|k: int| i <= k < j0 ==> (#[trigger] s[k]).start <= st + ln,
        j0 < s.len() ==> s[j0].start > st + ln,
        j < j0 ==> j == j0 - 1 && s[j].start == st + ln && s[j].label != lb,
        !skipped && i0 < s.len() && ent_end(s[i0]) == st ==> s[i0].label == lb,
        j == j0 && i < j0 && s[j0 - 1].start == st + ln ==> s[j0 - 1].label == lb,
    ensures
        forall|k: int|
            i <= k < j ==> (#[trigger] s[k]).label == lb && ent_end(s[k]) >= st && s[k].start <= st
                + ln,
        forall|k: int|
            j <= k < s.len() ==> (#[trigger] s[k]).start >= st + ln && (s[k].start == st + ln
                ==> s[k].label != lb),
        forall|k: int|
            0 <= k < i ==> ent_end(#[trigger] s[k]) <= st && (ent_end(s[k]) == st ==> s[k].label
                != lb),
{
    assert forall|k: int| i <= k < j implies (#[trigger] s[k]).label == lb && ent_end(s[k]) >= st
        && s[k].start <= st + ln by {
        if k > i0 {
            assert(ent_end(s[i0]) <= s[k].start);
            assert(ent_end(s[k]) > s[k].start);
        }
        assert(ent_end(s[k]) >= st);
        if s[k].label != lb {
            assert(!(s[k].start < st + ln && st < ent_end(s[k])));
            if ent_end(s[k]) == st {
                assert(k == i0 && !skipped);
            } else {
                assert(s[k].start == st + ln);
                assert(k == j - 1) by {
                    if k < j - 1 {
                        assert(ent_end(s[k]) <= s[j - 1].start);
                        assert(s[j - 1].start <= st + ln);
                    }
                }
                assert(j == j0);
            }
        }
    }
    assert forall|k: int| j <= k < s.len() implies (#[trigger] s[k]).start >= st + ln && (s[k].start
        == st + ln ==> s[k].label != lb) by {
        if j < j0 {
            if k > j {
                assert(ent_end(s[j]) <= s[k].start);
            }
        } else {
            assert(k >= j0);
            if k > j0 {
                assert(ent_end(s[j0]) <= s[k].start);
            }
        }
    }
}

/// From the window facts, the merged entry `m` replaces the run `[i, j)`
/// well-formedly and updates the coverage exactly by the block.
#[verifier::rlimit(100)]
proof fn lemma_insert_shape(s: Seq<Ent>, st: int, ln: int, lb: Seq<char>, i: int, j: int, m: Ent)
    requires
        wf_seq(s),
        0 <= i <= j <= s.len(),
        0 <= st,
        1 <= ln,
        st + ln <= 0x1_0000_0000,
        forall|k: int|
            i <= k < j ==> (#[trigger] s[k]).label == lb && ent_end(s[k]) >= st && s[k].start <= st
                + ln,
        forall|k: int|
            j <= k < s.len() ==> (#[trigger] s[k]).start >= st + ln && (s[k].start == st + ln
                ==> s[k].label != lb),
        forall|k: int|
            0 <= k < i ==> ent_end(#[trigger] s[k]) <= st && (ent_end(s[k]) == st ==> s[k].label
                != lb),
        m.label == lb,
        i < j ==> m.start == (if s[i].start < st {
            s[i].start
        } else {
            st
        }) && m.start + m.len == (if ent_end(s[j - 1]) > st + ln {
            ent_end(s[j - 1])
        } else {
            st + ln
        }),
        i == j ==> m.start == st && m.start + m.len == st + ln,
    ensures
        splice_pre(s, i, j, m, st, ln),
        wf_seq(s.subrange(0, i) + seq![m] + s.subrange(j, s.len() as int)),
        forall|a: int|
            cov_label(s.subrange(0, i) + seq![m] + s.subrange(j, s.len() as int), a) == cov_upd(
                s,
                st,
                ln,
                lb,
                a,
            ),
{
    let mend = m.start + m.len;
    if i < j {
        assert(entry_bounds_ok(s[i]) && entry_bounds_ok(s[j - 1]));
    }
    assert(entry_bounds_ok(m));
    assert forall|k: int| 0 <= k < i implies ent_end(#[trigger] s[k]) <= m.start by {
        if i < j {
            assert(ent_end(s[k]) <= s[i].start);
        }
    }
    assert forall|k: int| 0 <= k < i && ent_end(#[trigger] s[k]) == m.start implies s[k].label
        != m.label by {
        if m.start < st {
            // the merged run starts at s[i]; only the neighbour can touch it
            assert(i < j && m.start == s[i].start);
            assert(k == i - 1) by {
                if k < i - 1 {
                    assert(ent_end(s[k]) <= s[i - 1].start);
                    assert(entry_bounds_ok(s[i - 1]));
                    assert(ent_end(s[i - 1]) <= s[i].start);
                }
            }
            assert(ent_end(s[i - 1]) == s[i].start);
        }
    }
    assert forall|k: int|
        i <= k < j implies (#[trigger] s[k]).label == m.label && m.start <= s[k].start && ent_end(
        s[k],
    ) <= mend by {
        if k > i {
            assert(ent_end(s[i]) <= s[k].start);
            assert(entry_bounds_ok(s[i]));
        }
        if k < j - 1 {
            assert(ent_end(s[k]) <= s[j - 1].start);
            assert(entry_bounds_ok(s[j - 1]));
        }
    }
    assert forall|k: int| j <= k < s.len() implies (#[trigger] s[k]).start >= mend by {
        if i < j {
            assert(ent_end(s[j - 1]) <= s[k].start);
        }
    }
    assert forall|k: int| j <= k < s.len() && (#[trigger] s[k]).start == mend implies s[k].label
        != m.label by {
        if st + ln < mend {
            assert(i < j && mend == ent_end(s[j - 1]));
            assert(k == j) by {
                if k > j {
                    assert(ent_end(s[j]) <= s[k].start);
                    assert(entry_bounds_ok(s[j]));
                    assert(ent_end(s[j - 1]) <= s[j].start);
                }
            }
            assert(ent_end(s[j - 1]) == s[j].start);
        }
    }
    assert(splice_pre(s, i, j, m, st, ln));
    lemma_splice_wf(s, i, j, m, st, ln);
    lemma_splice_cov(s, i, j, m, st, ln);
}

/// Replacing the run `[i, j)` by the merged entry keeps the map well formed.
#[verifier::rlimit(100)]
proof fn lemma_splice_wf(s: Seq<Ent>, i: int, j: int, m: Ent, st: int, ln: int)
    requires
        splice_pre(s, i, j, m, st, ln),
    ensures
        wf_seq(s.subrange(0, i) + seq![m] + s.subrange(j, s.len() as int)),
{
    let n = s.len() as int;
    let newv = s.subrange(0, i) + seq![m] + s.subrange(j, n);
    assert forall|p: int| 0 <= p < newv.len() implies entry_bounds_ok(#[trigger] newv[p]) by {
        if p < i {
            assert(newv[p] == s[p]);
        } else if p > i {
            assert(newv[p] == s[p - i - 1 + j]);
        }
    }
    assert forall|p: int, q: int| 0 <= p < q < newv.len() implies ent_end(#[trigger] newv[p])
        <= (#[trigger] newv[q]).start by {
        if p < i {
            assert(newv[p] == s[p]);
        } else if p > i {
            assert(newv[p] == s[p - i - 1 + j]);
        }
        if q < i {
            assert(newv[q] == s[q]);
        } else if q > i {
            assert(newv[q] == s[q - i - 1 + j]);
        }
        if p < i && q > i {
            assert(ent_end(s[p]) <= m.start);
            assert(m.start + m.len <= s[q - i - 1 + j].start);
        }
    }
    assert forall|p: int|
        0 <= p && p + 1 < newv.len() && ent_end(#[trigger] newv[p]) == newv[p + 1].start implies newv[p].label
        != newv[p + 1].label by {
        if p + 1 < i {
            assert(newv[p] == s[p] && newv[p + 1] == s[p + 1]);
        } else if p + 1 == i {
            assert(newv[p] == s[p]);
        } else if p == i {
            assert(newv[p + 1] == s[j]);
        } else {
            assert(newv[p] == s[p - i - 1 + j] && newv[p + 1] == s[p - i + j]);
        }
    }
}

/// Replacing the run `[i, j)` by the merged entry gives the map exactly the
/// coverage of the old map overridden by the block.
#[verifier::rlimit(100)]
proof fn lemma_splice_cov(s: Seq<Ent>, i: int, j: int, m: Ent, st: int, ln: int)
    requires
        splice_pre(s, i, j, m, st, ln),
    ensures
        forall|a: int|
            cov_label(s.subrange(0, i) + seq![m] + s.subrange(j, s.len() as int), a) == cov_upd(
                s,
                st,
                ln,
                m.label,
                a,
            ),
{
    let n = s.len() as int;
    let pre = s.subrange(0, i);
    let win = s.subrange(i, j);
    let suf = s.subrange(j, n);
    let newv = pre + seq![m] + suf;
    assert(s =~= pre + (win + suf));
    assert(newv =~= pre + (seq![m] + suf));
    assert forall|a: int| cov_label(newv, a) == cov_upd(s, st, ln, m.label, a) by {
        lemma_cov_append(pre, seq![m] + suf, a);
        lemma_cov_append(seq![m], suf, a);
        lemma_cov_append(pre, win + suf, a);
        lemma_cov_append(win, suf, a);
        assert(seq![m].drop_first() =~= Seq::<Ent>::empty());
        assert(seq![m].len() == 1 && seq![m][0] == m);
        assert(cov_ent(Seq::<Ent>::empty(), a) is None);
        assert(cov_ent(seq![m], a) == if covers(m, a) {
            Some(m)
        } else {
            None::<Ent>
        });
        if a < m.start {
            assert forall|k: int| 0 <= k < win.len() implies !covers(#[trigger] win[k], a) by {
                assert(win[k] == s[i + k]);
            }
            lemma_cov_none(win, a);
            assert forall|k: int| 0 <= k < suf.len() implies !covers(#[trigger] suf[k], a) by {
                assert(suf[k] == s[j + k]);
            }
            lemma_cov_none(suf, a);
            assert(!(st <= a < st + ln));
        } else if a < m.start + m.len {
            assert forall|k: int| 0 <= k < pre.len() implies !covers(#[trigger] pre[k], a) by {
                assert(pre[k] == s[k]);
            }
            lemma_cov_none(pre, a);
            assert(covers(m, a));
            if st <= a < st + ln {
            } else if a < st {
                assert(covers(s[i], a));
                lemma_cov_of_entry(s, i, a);
            } else {
                assert(covers(s[j - 1], a));
                lemma_cov_of_entry(s, j - 1, a);
            }
        } else {
            assert forall|k: int| 0 <= k < pre.len() implies !covers(#[trigger] pre[k], a) by {
                assert(pre[k] == s[k]);
            }
            lemma_cov_none(pre, a);
            assert forall|k: int| 0 <= k < win.len() implies !covers(#[trigger] win[k], a) by {
                assert(win[k] == s[i + k]);
            }
            lemma_cov_none(win, a);
            assert(!covers(m, a));
            assert(!(st <= a < st + ln));
        }
    }
}

/// If two well-formed maps agree pointwise and start with an entry at the
/// same place with the same label, the first entries end together.
proof fn lemma_first_end_not_shorter(s1: Seq<Ent>, s2: Seq<Ent>)
    requires
        wf_seq(s1),
        wf_seq(s2),
        forall|a: int| cov_label(s1, a) == cov_label(s2, a),
        s1.len() > 0,
        s2.len() > 0,
        s1[0].start == s2[0].start,
        s1[0].label == s2[0].label,
    ensures
        ent_end(s1[0]) >= ent_end(s2[0]),
{
    let e1 = s1[0];
    let e2 = s2[0];
    if ent_end(e1) < ent_end(e2) {
        let a = ent_end(e1);
        assert(entry_bounds_ok(e1) && entry_bounds_ok(e2));
        assert(covers(e2, a));
        lemma_cov_of_entry(s2, 0, a);
        assert(cov_label(s2, a) == Some(e2.label));
        assert(cov_label(s1, a) == cov_label(s2, a));
        assert(cov_label(s1, a) == Some(e2.label));
        lemma_cov_member(s1, a);
        let i = choose|i: int| 0 <= i < s1.len() && s1[i] == cov_ent(s1, a)->Some_0 && covers(
            #[trigger] s1[i],
            a,
        );
        assert(!covers(e1, a));
        assert(i >= 1);
        assert(s1[i].start >= ent_end(s1[0]));
        assert(s1[i].start == a);
        assert(i == 1) by {
            if i >= 2 {
                assert(ent_end(s1[1]) <= s1[i].start);
                assert(entry_bounds_ok(s1[1]));
                assert(s1[1].start >= ent_end(s1[0]));
            }
        }
        assert(ent_end(s1[0]) == s1[1].start);
        assert(s1[0].label != s1[1].label);
        lemma_cov_of_entry(s1, 1, a);
        assert(cov_label(s1, a) == Some(s1[1].label));
        assert(false);
    }
}

/// Canonical form is unique: two well-formed maps with the same pointwise
/// coverage hold the same entries.
pub proof fn lemma_canonical_unique(s1: Seq<Ent>, s2: Seq<Ent>)
    requires
        wf_seq(s1),
        wf_seq(s2),
        forall|a: int| cov_label(s1, a) == cov_label(s2, a),
    ensures
        s1 == s2,
    decreases s1.len(),
{
    if s1.len() == 0 {
        if s2.len() > 0 {
            let e = s2[0];
            assert(entry_bounds_ok(e));
            assert(covers(e, e.start));
            lemma_cov_of_entry(s2, 0, e.start);
            lemma_cov_none(s1, e.start);
            assert(cov_label(s2, e.start) == Some(e.label));
            assert(cov_label(s1, e.start) is None);
            assert(false);
        }
        assert(s1 =~= s2);
    } else if s2.len() == 0 {
        let e = s1[0];
        assert(entry_bounds_ok(e));
        assert(covers(e, e.start));
        lemma_cov_of_entry(s1, 0, e.start);
        lemma_cov_none(s2, e.start);
        assert(cov_label(s1, e.start) == Some(e.label));
        assert(cov_label(s2, e.start) is None);
        assert(false);
    } else {
        let e1 = s1[0];
        let e2 = s2[0];
        assert(entry_bounds_ok(e1) && entry_bounds_ok(e2));
        assert(covers(e1, e1.start));
        lemma_cov_of_entry(s1, 0, e1.start);
        assert(covers(e2, e2.start));
        lemma_cov_of_entry(s2, 0, e2.start);
        if e1.start < e2.start {
            assert forall|k: int| 0 <= k < s2.len() implies !covers(#[trigger] s2[k], e1.start) by {
                if k > 0 {
                    assert(ent_end(s2[0]) <= s2[k].start);
                }
            }
            lemma_cov_none(s2, e1.start);
            assert(cov_label(s1, e1.start) == Some(e1.label));
            assert(cov_label(s2, e1.start) is None);
            assert(false);
        }
        if e2.start < e1.start {
            assert forall|k: int| 0 <= k < s1.len() implies !covers(#[trigger] s1[k], e2.start) by {
                if k > 0 {
                    assert(ent_end(s1[0]) <= s1[k].start);
                }
            }
            lemma_cov_none(s1, e2.start);
            assert(cov_label(s2, e2.start) == Some(e2.label));
            assert(cov_label(s1, e2.start) is None);
            assert(false);
        }
        assert(e1.start == e2.start);
        assert(cov_label(s1, e1.start) == Some(e1.label));
        assert(cov_label(s2, e1.start) == Some(e2.label));
        assert(e1.label == e2.label);
        lemma_first_end_not_shorter(s1, s2);
        lemma_first_end_not_shorter(s2, s1);
        assert(ent_end(e1) == ent_end(e2));
        assert(e1 == e2);
        lemma_wf_drop_first(s1);
        lemma_wf_drop_first(s2);
        assert forall|a: int| cov_label(s1.drop_first(), a) == cov_label(s2.drop_first(), a) by {
            assert(cov_label(s1, a) == cov_label(s2, a));
            if covers(e1, a) {
                assert forall|k: int| 0 <= k < s1.drop_first().len() implies !covers(
                    #[trigger] s1.drop_first()[k],
                    a,
                ) by {
                    assert(s1.drop_first()[k] == s1[k + 1]);
                    assert(ent_end(s1[0]) <= s1[k + 1].start);
                }
                lemma_cov_none(s1.drop_first(), a);
                assert forall|k: int| 0 <= k < s2.drop_first().len() implies !covers(
                    #[trigger] s2.drop_first()[k],
                    a,
                ) by {
                    assert(s2.drop_first()[k] == s2[k + 1]);
                    assert(ent_end(s2[0]) <= s2[k + 1].start);
                }
                lemma_cov_none(s2.drop_first(), a);
            } else {
                assert(cov_ent(s1, a) == cov_ent(s1.drop_first(), a));
                assert(cov_ent(s2, a) == cov_ent(s2.drop_first(), a));
            }
        }
        lemma_canonical_unique(s1.drop_first(), s2.drop_first());
        assert forall|p: int| 0 <= p < s1.len() implies s1[p] == s2[p] by {
            if p > 0 {
                assert(s1.drop_first()[p - 1] == s1[p]);
                assert(s2.drop_first()[p - 1] == s2[p]);
            }
        }
        assert(s1 =~= s2);
    }
}

/// Disjointness: no two entries of a well-formed map overlap.  `empty`
/// returns a well-formed map and `insert` keeps well-formedness, so this
/// holds after any sequence of insertions.
pub proof fn lemma_disjoint(s: Seq<Ent>, i: int, j: int)
    requires
        wf_seq(s),
        0 <= i < j < s.len(),
    ensures
        s[i].start + s[i].len <= s[j].start,
{
}

/// A block whose addresses already carry its own label, or none, does not
/// foreign-overlap the map, so `insert` accepts it.
pub proof fn lemma_no_foreign(s: Seq<Ent>, st: int, ln: int, lb: Seq<char>)
    requires
        wf_seq(s),
        1 <= ln,
        forall|a: int|
            st <= a < st + ln ==> cov_label(s, a) is None || cov_label(s, a) == Some(lb),
    ensures
        !foreign_overlap(s, st, ln, lb),
{
    if foreign_overlap(s, st, ln, lb) {
        let i = choose|i: int|
            0 <= i < s.len() && (#[trigger] s[i]).label != lb && s[i].start < st + ln && st
                < ent_end(s[i]);
        let e = s[i];
        let a = if st >= e.start {
            st
        } else {
            e.start
        };
        assert(covers(e, a));
        assert(st <= a < st + ln);
        lemma_cov_of_entry(s, i, a);
        assert(cov_label(s, a) == Some(e.label));
        assert(cov_label(s, a) is None || cov_label(s, a) == Some(lb));
        assert(false);
    }
}

/// Merge idempotence: inserting the same block twice yields the same map
/// as inserting it once.  `s1` is any well-formed map after inserting the
/// block into `s0`; `s2` is any well-formed map after inserting it again.
pub proof fn lemma_insert_idempotent(
    s0: Seq<Ent>,
    s1: Seq<Ent>,
    s2: Seq<Ent>,
    st: int,
    ln: int,
    lb: Seq<char>,
)
    requires
        wf_seq(s1),
        wf_seq(s2),
        forall|a: int| cov_label(s1, a) == cov_upd(s0, st, ln, lb, a),
        forall|a: int| cov_label(s2, a) == cov_upd(s1, st, ln, lb, a),
    ensures
        s2 == s1,
{
    assert forall|a: int| cov_label(s2, a) == cov_label(s1, a) by {
        assert(cov_label(s1, a) == cov_upd(s0, st, ln, lb, a));
        assert(cov_label(s2, a) == cov_upd(s1, st, ln, lb, a));
        if st <= a < st + ln {
            assert(cov_label(s1, a) == Some(lb));
        }
    }
    lemma_canonical_unique(s2, s1);
}

/// Contiguous same-label blocks merge: inserting `[st, st + l1)` into an
/// empty map and then the touching block `[st + l1, st + l1 + l2)` with the
/// same label yields one entry spanning both.
pub proof fn lemma_contiguous_merge(
    s1: Seq<Ent>,
    s2: Seq<Ent>,
    st: int,
    l1: int,
    l2: int,
    lb: Seq<char>,
)
    requires
        wf_seq(s1),
        wf_seq(s2),
        0 <= st,
        1 <= l1,
        1 <= l2,
        st + l1 + l2 <= 0x1_0000_0000,
        forall|a: int| cov_label(s1, a) == cov_upd(Seq::<Ent>::empty(), st, l1, lb, a),
        forall|a: int| cov_label(s2, a) == cov_upd(s1, st + l1, l2, lb, a),
    ensures
        s2 == seq![Ent { start: st, len: l1 + l2, label: lb }],
{
    let target = seq![Ent { start: st, len: l1 + l2, label: lb }];
    assert(wf_seq(target));
    assert forall|a: int| cov_label(target, a) == cov_label(s2, a) by {
        assert(cov_label(s1, a) == cov_upd(Seq::<Ent>::empty(), st, l1, lb, a));
        assert(cov_label(s2, a) == cov_upd(s1, st + l1, l2, lb, a));
        assert(target.drop_first() =~= Seq::<Ent>::empty());
        assert(cov_ent(Seq::<Ent>::empty(), a) is None);
        assert(target[0] == Ent { start: st, len: l1 + l2, label: lb });
    }
    lemma_canonical_unique(s2, target);
}

/// Bridging: two same-label blocks with a gap between them, then a block
/// filling exactly the gap, merge into one entry covering the whole span.
pub proof fn lemma_bridge_merge(
    s1: Seq<Ent>,
    s2: Seq<Ent>,
    s3: Seq<Ent>,
    st: int,
    l1: int,
    g: int,
    l2: int,
    lb: Seq<char>,
)
    requires
        wf_seq(s1),
        wf_seq(s2),
        wf_seq(s3),
        0 <= st,
        1 <= l1,
        1 <= g,
        1 <= l2,
        st + l1 + g + l2 <= 0x1_0000_0000,
        forall|a: int| cov_label(s1, a) == cov_upd(Seq::<Ent>::empty(), st, l1, lb, a),
        forall|a: int| cov_label(s2, a) == cov_upd(s1, st + l1 + g, l2, lb, a),
        forall|a: int| cov_label(s3, a) == cov_upd(s2, st + l1, g, lb, a),
    ensures
        s3 == seq![Ent { start: st, len: l1 + g + l2, label: lb }],
{
    let target = seq![Ent { start: st, len: l1 + g + l2, label: lb }];
    assert(wf_seq(target));
    assert forall|a: int| cov_label(target, a) == cov_label(s3, a) by {
        assert(cov_label(s1, a) == cov_upd(Seq::<Ent>::empty(), st, l1, lb, a));
        assert(cov_label(s2, a) == cov_upd(s1, st + l1 + g, l2, lb, a));
        assert(cov_label(s3, a) == cov_upd(s2, st + l1, g, lb, a));
        assert(target.drop_first() =~= Seq::<Ent>::empty());
        assert(cov_ent(Seq::<Ent>::empty(), a) is None);
        assert(target[0] == Ent { start: st, len: l1 + g + l2, label: lb });
    }
    lemma_canonical_unique(s3, target);
}

/// Different-label adjacency is preserved: two touching blocks with
/// different labels stay two entries, never merged.
pub proof fn lemma_adjacent_labels_kept(
    s1: Seq<Ent>,
    s2: Seq<Ent>,
    st: int,
    l1: int,
    l2: int,
    la: Seq<char>,
    lb: Seq<char>,
)
    requires
        wf_seq(s1),
        wf_seq(s2),
        la != lb,
        0 <= st,
        1 <= l1,
        1 <= l2,
        st + l1 + l2 <= 0x1_0000_0000,
        forall|a: int| cov_label(s1, a) == cov_upd(Seq::<Ent>::empty(), st, l1, la, a),
        forall|a: int| cov_label(s2, a) == cov_upd(s1, st + l1, l2, lb, a),
    ensures
        s2 == seq![
            Ent { start: st, len: l1, label: la },
            Ent { start: st + l1, len: l2, label: lb },
        ],
{
    let ea = Ent { start: st, len: l1, label: la };
    let eb = Ent { start: st + l1, len: l2, label: lb };
    let target = seq![ea, eb];
    assert(target[0] == ea && target[1] == eb);
    assert(wf_seq(target));
    assert forall|a: int| cov_label(target, a) == cov_label(s2, a) by {
        assert(cov_label(s1, a) == cov_upd(Seq::<Ent>::empty(), st, l1, la, a));
        assert(cov_label(s2, a) == cov_upd(s1, st + l1, l2, lb, a));
        assert(target.drop_first() =~= seq![eb]);
        assert(seq![eb].drop_first() =~= Seq::<Ent>::empty());
        assert(seq![eb][0] == eb);
        assert(cov_ent(Seq::<Ent>::empty(), a) is None);
        assert(cov_ent(seq![eb], a) == if covers(eb, a) {
            Some(eb)
        } else {
            None::<Ent>
        });
    }
    lemma_canonical_unique(s2, target);
}

/// One stored range with its label.
pub struct CIDREntry {
    pub start: u32,
    pub range: u64,
    pub label: String,
}

impl CIDREntry {
    pub open spec fn ent(self) -> Ent {
        Ent { start: self.start as int, len: self.range as int, label: self.label@ }
    }
}

/// The interval map itself: entries sorted by start address.
pub struct CIDRMap {
    entries: Vec<CIDREntry>,
}

/// What a point query returns: the remaining length from the queried
/// address to the end of the matched interval, and the interval's label.
pub struct IPv4QueryResult {
    pub range: u64,
    pub label: String,
}

/// Mathematical form of a stored entry sequence.
pub open spec fn ents_of(v: Seq<CIDREntry>) -> Seq<Ent> {
    v.map_values(|e: CIDREntry| e.ent())
}

impl View for CIDRMap {
    type V = Seq<Ent>;

    closed spec fn view(&self) -> Seq<Ent> {
        ents_of(self.entries@)
    }
}

/// Character-wise string equality.
pub fn str_eq(a: &str, b: &str) -> (r: bool)
    ensures
        r == (a@ == b@),
{
    let na = a.unicode_len();
    let nb = b.unicode_len();
    if na != nb {
        return false;
    }
    let mut i: usize = 0;
    while i < na
        invariant
            0 <= i <= na,
            na == a@.len() && na == b@.len(),
            forall|j: int| 0 <= j < i ==> a@[j] == b@[j],
        decreases na - i,
    {
        if a.get_char(i) != b.get_char(i) {
            return false;
        }
        i = i + 1;
    }
    proof {
        assert(a@ =~= b@);
    }
    true
}

impl CIDRMap {
    pub open spec fn wf(self) -> bool {
        wf_seq(self@)
    }

    /// A map with no entries.
    pub fn empty() -> (r: CIDRMap)
        ensures
            r@ == Seq::<Ent>::empty(),
            r.wf(),
    {
        let m = CIDRMap { entries: Vec::new() };
        proof {
            assert(m@ =~= Seq::<Ent>::empty());
        }
        m
    }

    /// The number of stored entries.
    pub fn entry_count(&self) -> (r: usize)
        ensures
            r == self@.len(),
    {
        self.entries.len()
    }

    /// The entry at position `i` in ascending-start order, as its start,
    /// length and label.
    pub fn get_entry(&self, i: usize) -> (r: (u32, u64, &String))
        requires
            i < self@.len(),
        ensures
            r.0 as int == self@[i as int].start,
            r.1 as int == self@[i as int].len,
            r.2@ == self@[i as int].label,
    {
        let e = &self.entries[i];
        (e.start, e.range, &e.label)
    }

    /// Merge-insert of one block.  When the block overlaps an entry with a
    /// different label, the map is left unchanged and `false` is returned:
    /// such an overlap is a data-quality condition the merge does not
    /// resolve.  Otherwise the block is inserted, coalesced with every
    /// same-label entry it overlaps or touches, and `true` is returned;
    /// the map then covers exactly what it covered before plus the block,
    /// the block's addresses carrying the new label.
    #[verifier::rlimit(100)]
    pub fn insert(&mut self, start: u32, range: u64, label: &str) -> (r: bool)
        requires
            old(self).wf(),
            1 <= range,
            start as int + range as int <= 0x1_0000_0000,
        ensures
            final(self).wf(),
            r == !foreign_overlap(old(self)@, start as int, range as int, label@),
            r ==> forall|a: int|
                cov_label(final(self)@, a) == cov_upd(
                    old(self)@,
                    start as int,
                    range as int,
                    label@,
                    a,
                ),
            !r ==> final(self)@ == old(self)@,
    {
        let ghost s = old(self)@;
        let ghost st = start as int;
        let ghost ln = range as int;
        let n = self.entries.len();
        proof {
            assert(n == s.len());
            assert forall|k: int| 0 <= k < n implies (#[trigger] self.entries@[k]).start as int
                + self.entries@[k].range as int <= 0x1_0000_0000 && s[k]
                == self.entries@[k].ent() by {
                assert(entry_bounds_ok(s[k]));
            }
        }
        let send: u64 = start as u64 + range;
        let mut t: usize = 0;
        let mut foreign = false;
        while t < n
            invariant
                t <= n,
                s == self@,
                n == s.len(),
                wf_seq(s),
                st == start as int,
                ln == range as int,
                send == start as u64 + range,
                forall|k: int|
                    0 <= k < n ==> (#[trigger] self.entries@[k]).range as int <= 0x1_0000_0000,
                foreign == exists|k: int|
                    0 <= k < t && (#[trigger] s[k]).label != label@ && s[k].start < st + ln && st
                        < ent_end(s[k]),
            decreases n - t,
        {
            let e = &self.entries[t];
            proof {
                assert(s[t as int] == self.entries@[t as int].ent());
                assert(entry_bounds_ok(s[t as int]));
            }
            if !str_eq(e.label.as_str(), label) && (e.start as u64) < send && (start as u64)
                < e.start as u64 + e.range {
                proof {
                    assert(s[t as int].label != label@ && s[t as int].start < st + ln && st
                        < ent_end(s[t as int]));
                }
                foreign = true;
            }
            t = t + 1;
        }
        if foreign {
            return false;
        }
        proof {
            assert(!foreign_overlap(s, st, ln, label@));
        }
        let mut i: usize = 0;
        while i < n && self.entries[i].start as u64 + self.entries[i].range < start as u64
            invariant
                i <= n,
                s == self@,
                n == s.len(),
                st == start as int,
                forall|k: int|
                    0 <= k < n ==> (#[trigger] self.entries@[k]).range as int <= 0x1_0000_0000,
                forall|k: int| 0 <= k < i ==> ent_end(#[trigger] s[k]) < st,
            decreases n - i,
        {
            proof {
                assert(s[i as int] == self.entries@[i as int].ent());
            }
            i = i + 1;
        }
        let ghost i0 = i as int;
        let ghost mut skipped = false;
        if i < n {
            let e = &self.entries[i];
            let touches = e.start as u64 + e.range == start as u64;
            let same = str_eq(e.label.as_str(), label);
            if touches && !same {
                proof {
                    skipped = true;
                }
                i = i + 1;
            }
        }
        let mut j: usize = i;
        while j < n && self.entries[j].start as u64 <= send
            invariant
                i <= j <= n,
                s == self@,
                n == s.len(),
                st == start as int,
                ln == range as int,
                send == start as u64 + range,
                forall|k: int| i <= k < j ==> (#[trigger] s[k]).start <= st + ln,
            decreases n - j,
        {
            proof {
                assert(s[j as int] == self.entries@[j as int].ent());
            }
            j = j + 1;
        }
        let ghost j0 = j as int;
        if j > i {
            let e = &self.entries[j - 1];
            let touches = e.start as u64 == send;
            let same = str_eq(e.label.as_str(), label);
            if touches && !same {
                j = j - 1;
            }
        }
        proof {
            lemma_window_facts(
                s,
                st,
                ln,
                label@,
                i0,
                i as int,
                j as int,
                j0,
                skipped,
            );
        }
        let mut new_start: u64 = start as u64;
        let mut new_end: u64 = send;
        if i < j {
            let e = &self.entries[i];
            if (e.start as u64) < new_start {
                new_start = e.start as u64;
            }
            let e2 = &self.entries[j - 1];
            let e2end = e2.start as u64 + e2.range;
            if e2end > new_end {
                new_end = e2end;
            }
        }
        let ghost m = Ent {
            start: new_start as int,
            len: (new_end - new_start) as int,
            label: label@,
        };
        proof {
            lemma_insert_shape(s, st, ln, label@, i as int, j as int, m);
        }
        let mut out: Vec<CIDREntry> = Vec::new();
        let mut k: usize = 0;
        while k < i
            invariant
                k <= i <= n,
                s == self@,
                n == s.len(),
                ents_of(out@) == s.subrange(0, k as int),
            decreases i - k,
        {
            let e = &self.entries[k];
            let ghost out_prev = out@;
            let ne = CIDREntry { start: e.start, range: e.range, label: e.label.clone() };
            proof {
                assert(s[k as int] == self.entries@[k as int].ent());
                assert(ne.ent() == s[k as int]);
            }
            out.push(ne);
            proof {
                assert(ents_of(out@) =~= ents_of(out_prev).push(s[k as int]));
                assert(s.subrange(0, k + 1) =~= s.subrange(0, k as int).push(s[k as int]));
            }
            k = k + 1;
        }
        let ghost out_mid = out@;
        let me = CIDREntry {
            start: new_start as u32,
            range: new_end - new_start,
            label: label.to_owned(),
        };
        proof {
            assert(me.ent() == m);
        }
        out.push(me);
        proof {
            assert(ents_of(out@) =~= ents_of(out_mid).push(m));
            assert(ents_of(out@) =~= s.subrange(0, i as int) + seq![m]);
        }
        let mut k2: usize = j;
        while k2 < n
            invariant
                i <= j <= k2 <= n,
                s == self@,
                n == s.len(),
                ents_of(out@) == s.subrange(0, i as int) + seq![m] + s.subrange(
                    j as int,
                    k2 as int,
                ),
            decreases n - k2,
        {
            let e = &self.entries[k2];
            let ghost out_prev = out@;
            let ne = CIDREntry { start: e.start, range: e.range, label: e.label.clone() };
            proof {
                assert(s[k2 as int] == self.entries@[k2 as int].ent());
                assert(ne.ent() == s[k2 as int]);
            }
            out.push(ne);
            proof {
                assert(ents_of(out@) =~= ents_of(out_prev).push(s[k2 as int]));
                assert(s.subrange(j as int, k2 + 1) =~= s.subrange(j as int, k2 as int).push(
                    s[k2 as int],
                ));
                assert(ents_of(out@) =~= s.subrange(0, i as int) + seq![m] + s.subrange(
                    j as int,
                    k2 + 1,
                ));
            }
            k2 = k2 + 1;
        }
        self.entries = out;
        proof {
            assert(self@ =~= s.subrange(0, i as int) + seq![m] + s.subrange(j as int, n as int));
        }
        true
    }

    /// Point query: the entry whose range holds `ipv4`, as the remaining
    /// length from `ipv4` to that range's end, with the entry's label;
    /// nothing when `ipv4` falls in a gap.
    pub fn query_ipv4(&self, ipv4: u32) -> (r: Option<IPv4QueryResult>)
        requires
            self.wf(),
        ensures
            (r is Some) == (cov_ent(self@, ipv4 as int) is Some),
            r matches Some(q) ==> cov_ent(self@, ipv4 as int) matches Some(e) && q.label@ == e.label
                && q.range as int == e.start + e.len - ipv4 as int,
    {
        let n = self.entries.len();
        let mut i: usize = 0;
        while i < n
            invariant
                0 <= i <= n,
                n == self@.len(),
                self.wf(),
                forall|j: int| 0 <= j < i ==> !covers(#[trigger] self@[j], ipv4 as int),
            decreases n - i,
        {
            let e = &self.entries[i];
            proof {
                assert(self@[i as int] == self.entries@[i as int].ent());
                assert(entry_bounds_ok(self@[i as int]));
            }
            if e.start <= ipv4 && (ipv4 as u64) < e.start as u64 + e.range {
                proof {
                    lemma_cov_of_entry(self@, i as int, ipv4 as int);
                }
                return Some(
                    IPv4QueryResult {
                        range: e.start as u64 + e.range - ipv4 as u64,
                        label: e.label.clone(),
                    },
                );
            }
            i = i + 1;
        }
        proof {
            lemma_cov_none(self@, ipv4 as int);
        }
        None
    }
}

} // verus!
