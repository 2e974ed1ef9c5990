//! The map builder: folds labeled groups of raw CIDR lines into one
//! interval map by repeated merge-insert.

use vstd::prelude::*;
use crate::codec::{cidr_addr, cidr_depacker, cidr_len, cidr_ok, CidrError};
use crate::interval_map::{
    cov_label, cov_upd, covers, ent_end, foreign_overlap, lemma_cov_of_entry, wf_seq, CIDRMap, Ent,
};

verus! {

/// One labeled group of raw CIDR lines: a dataset file's stem and its rows.
pub struct CIDRGroup {
    pub label: String,
    pub lines: Vec<String>,
}

/// Mathematical form of one group.
pub ghost struct GroupV {
    pub label: Seq<char>,
    pub lines: Seq<Seq<char>>,
}

impl View for CIDRGroup {
    type V = GroupV;

    open spec fn view(&self) -> GroupV {
        GroupV { label: self.label@, lines: self.lines@.map_values(|x: String| x@) }
    }
}

pub open spec fn gviews(gs: Seq<CIDRGroup>) -> Seq<GroupV> {
    gs.map_values(|g: CIDRGroup| g@)
}

/// What is wrong with one raw line, if anything.  Blank lines are skipped;
/// a line that does not meet the grammar is malformed; a well-formed block
/// reaching past the end of the address space cannot be stored.
pub open spec fn line_bad(l: Seq<char>) -> Option<CidrError> {
    if l.len() == 0 {
        None
    } else if !cidr_ok(l) {
        Some(CidrError::MalformedCidr)
    } else if cidr_addr(l) + cidr_len(l) > 0x1_0000_0000 {
        Some(CidrError::RangeOverflow)
    } else {
        None
    }
}

/// The first problem among a group's lines, in order.
pub open spec fn lines_first_bad(ls: Seq<Seq<char>>) -> Option<CidrError>
    decreases ls.len(),
{
    if ls.len() == 0 {
        None
    } else if line_bad(ls[0]) is Some {
        line_bad(ls[0])
    } else {
        lines_first_bad(ls.drop_first())
    }
}

/// The first problem across all groups, in order.
pub open spec fn groups_first_bad(gs: Seq<GroupV>) -> Option<CidrError>
    decreases gs.len(),
{
    if gs.len() == 0 {
        None
    } else if lines_first_bad(gs[0].lines) is Some {
        lines_first_bad(gs[0].lines)
    } else {
        groups_first_bad(gs.drop_first())
    }
}

/// A good line whose block holds address `a`.
pub open spec fn line_block_contains(l: Seq<char>, a: int) -> bool {
    l.len() > 0 && line_bad(l) is None && cidr_addr(l) <= a < cidr_addr(l) + cidr_len(l)
}

/// Is the position `(gg, ii)` before the cursor `(g, li)` in reading order?
pub open spec fn before(gg: int, ii: int, g: int, li: int) -> bool {
    gg < g || (gg == g && ii < li)
}

/// All lines before the cursor are good.
pub open spec fn good_upto(gs: Seq<GroupV>, g: int, li: int) -> bool {
    forall|gg: int, ii: int|
        0 <= gg < gs.len() && 0 <= ii < gs[gg].lines.len() && before(gg, ii, g, li)
            ==> line_bad(#[trigger] gs[gg].lines[ii]) is None
}

/// Every covered address comes from some already-read line, with that
/// line's group label.
pub open spec fn sound_upto(gs: Seq<GroupV>, g: int, li: int, m: Seq<Ent>) -> bool {
    forall|a: int|
        (#[trigger] cov_label(m, a)) matches Some(l) ==> exists|gg: int, ii: int|
            0 <= gg < gs.len() && 0 <= ii < gs[gg].lines.len() && before(gg, ii, g, li)
                && line_block_contains(#[trigger] gs[gg].lines[ii], a) && gs[gg].label == l
}

/// Every address of an already-read block is covered.
pub open spec fn complete_upto(gs: Seq<GroupV>, g: int, li: int, m: Seq<Ent>) -> bool {
    forall|gg: int, ii: int, a: int|
        #![trigger line_block_contains(gs[gg].lines[ii], a)]
        0 <= gg < gs.len() && 0 <= ii < gs[gg].lines.len() && before(gg, ii, g, li)
            && line_block_contains(gs[gg].lines[ii], a) ==> cov_label(m, a) is Some
}

/// Does any line of the input contain address `a`?
pub open spec fn input_covers(gs: Seq<GroupV>, a: int) -> bool {
    exists|gg: int, ii: int|
        0 <= gg < gs.len() && 0 <= ii < gs[gg].lines.len() && line_block_contains(
            #[trigger] gs[gg].lines[ii],
            a,
        )
}

/// Clean input: no two blocks carrying different labels share an address.
pub open spec fn input_clean(gs: Seq<GroupV>) -> bool {
    forall|g1: int, i1: int, g2: int, i2: int, a: int|
        #![trigger line_block_contains(gs[g1].lines[i1], a), line_block_contains(gs[g2].lines[i2], a)]
        0 <= g1 < gs.len() && 0 <= i1 < gs[g1].lines.len() && 0 <= g2 < gs.len() && 0 <= i2 < gs[
            g2
        ].lines.len() && line_block_contains(gs[g1].lines[i1], a) && line_block_contains(
            gs[g2].lines[i2],
            a,
        ) ==> gs[g1].label == gs[g2].label
}

/// A bad line at the cursor, with only good lines before it, is the first
/// bad line of its group's tail.
proof fn lemma_lines_first_bad_at(ls: Seq<Seq<char>>, li: int)
    requires
        0 <= li < ls.len(),
        forall|ii: int| 0 <= ii < li ==> line_bad(#[trigger] ls[ii]) is None,
        line_bad(ls[li]) is Some,
    ensures
        lines_first_bad(ls) == line_bad(ls[li]),
    decreases ls.len(),
{
    if li > 0 {
        assert forall|ii: int| 0 <= ii < li - 1 implies line_bad(
            #[trigger] ls.drop_first()[ii],
        ) is None by {
            assert(ls.drop_first()[ii] == ls[ii + 1]);
        }
        assert(ls.drop_first()[li - 1] == ls[li]);
        lemma_lines_first_bad_at(ls.drop_first(), li - 1);
    }
}

proof fn lemma_lines_all_good(ls: Seq<Seq<char>>)
    requires
        forall|ii: int| 0 <= ii < ls.len() ==> line_bad(#[trigger] ls[ii]) is None,
    ensures
        lines_first_bad(ls) is None,
    decreases ls.len(),
{
    if ls.len() > 0 {
        assert forall|ii: int| 0 <= ii < ls.drop_first().len() implies line_bad(
            #[trigger] ls.drop_first()[ii],
        ) is None by {
            assert(ls.drop_first()[ii] == ls[ii + 1]);
        }
        lemma_lines_all_good(ls.drop_first());
    }
}

/// A bad line at the cursor, with only good lines before it in reading
/// order, is the first bad line of the whole input.
proof fn lemma_groups_first_bad_at(gs: Seq<GroupV>, g: int, li: int)
    requires
        0 <= g < gs.len(),
        0 <= li < gs[g].lines.len(),
        good_upto(gs, g, li),
        line_bad(gs[g].lines[li]) is Some,
    ensures
        groups_first_bad(gs) == line_bad(gs[g].lines[li]),
    decreases gs.len(),
{
    if g == 0 {
        assert forall|ii: int| 0 <= ii < li implies line_bad(#[trigger] gs[0].lines[ii]) is None by {
            assert(before(0, ii, 0, li));
        }
        lemma_lines_first_bad_at(gs[0].lines, li);
    } else {
        assert forall|ii: int| 0 <= ii < gs[0].lines.len() implies line_bad(
            #[trigger] gs[0].lines[ii],
        ) is None by {
            assert(before(0, ii, g, li));
        }
        lemma_lines_all_good(gs[0].lines);
        let t = gs.drop_first();
        assert(t[g - 1] == gs[g]);
        assert forall|gg: int, ii: int|
            0 <= gg < t.len() && 0 <= ii < t[gg].lines.len() && before(gg, ii, g - 1, li) implies line_bad(
            #[trigger] t[gg].lines[ii],
        ) is None by {
            assert(t[gg] == gs[gg + 1]);
            assert(before(gg + 1, ii, g, li));
        }
        lemma_groups_first_bad_at(t, g - 1, li);
    }
}

/// When every line is good, no first bad line exists.
proof fn lemma_groups_all_good(gs: Seq<GroupV>)
    requires
        good_upto(gs, gs.len() as int, 0),
    ensures
        groups_first_bad(gs) is None,
    decreases gs.len(),
{
    if gs.len() > 0 {
        assert forall|ii: int| 0 <= ii < gs[0].lines.len() implies line_bad(
            #[trigger] gs[0].lines[ii],
        ) is None by {
            assert(before(0, ii, gs.len() as int, 0));
        }
        lemma_lines_all_good(gs[0].lines);
        let t = gs.drop_first();
        assert forall|gg: int, ii: int|
            0 <= gg < t.len() && 0 <= ii < t[gg].lines.len() && before(gg, ii, t.len() as int, 0) implies line_bad(
            #[trigger] t[gg].lines[ii],
        ) is None by {
            assert(t[gg] == gs[gg + 1]);
            assert(before(gg + 1, ii, gs.len() as int, 0));
        }
        lemma_groups_all_good(t);
    }
}

impl CIDRMap {
    /// Folds a batch of labeled CIDR-line groups into one interval map, in
    /// the given order, skipping blank lines.  Fails on the first malformed
    /// line, and on the first block reaching past the address space.  On
    /// success the map is well formed; every covered address stems from an
    /// input block with that group's label, and — when no two blocks of
    /// different labels overlap — an address is covered exactly when some
    /// input block holds it.
    #[verifier::rlimit(100)]
    pub fn new(groups: &Vec<CIDRGroup>) -> (r: Result<CIDRMap, CidrError>)
        ensures
            r is Err <==> groups_first_bad(gviews(groups@)) is Some,
            r matches Err(e) ==> Some(e) == groups_first_bad(gviews(groups@)),
            r matches Ok(m) ==> m.wf() && sound_upto(
                gviews(groups@),
                groups@.len() as int,
                0,
                m@,
            ),
            r matches Ok(m) ==> (input_clean(gviews(groups@)) ==> forall|a: int|
                (#[trigger] cov_label(m@, a) is Some) == input_covers(gviews(groups@), a)),
    {
        let ghost gv = gviews(groups@);
        let mut map = CIDRMap::empty();
        let gn = groups.len();
        let mut g: usize = 0;
        while g < gn
            invariant
                gv == gviews(groups@),
                gn == groups@.len(),
                g <= gn,
                map.wf(),
                good_upto(gv, g as int, 0),
                sound_upto(gv, g as int, 0, map@),
                input_clean(gv) ==> complete_upto(gv, g as int, 0, map@),
            decreases gn - g,
        {
            let grp = &groups[g];
            proof {
                assert(gv[g as int] == groups@[g as int]@);
            }
            let lc = grp.lines.len();
            let mut li: usize = 0;
            while li < lc
                invariant
                    gv == gviews(groups@),
                    gn == groups@.len(),
                    g < gn,
                    grp == &groups[g as int],
                    gv[g as int] == groups@[g as int]@,
                    lc == grp.lines@.len(),
                    lc == gv[g as int].lines.len(),
                    li <= lc,
                    map.wf(),
                    good_upto(gv, g as int, li as int),
                    sound_upto(gv, g as int, li as int, map@),
                    input_clean(gv) ==> complete_upto(gv, g as int, li as int, map@),
                decreases lc - li,
            {
                let line = &grp.lines[li];
                let ghost lv = gv[g as int].lines[li as int];
                proof {
                    assert(lv == line@);
                }
                if line.unicode_len() == 0 {
                    proof {
                        lemma_step_trivial(gv, g as int, li as int, map@);
                    }
                    li = li + 1;
                    continue ;
                }
                match cidr_depacker(line.as_str()) {
                    Err(e) => {
                        proof {
                            assert(line_bad(lv) == Some(CidrError::MalformedCidr));
                            lemma_groups_first_bad_at(gv, g as int, li as int);
                        }
                        return Err(e);
                    },
                    Ok((addr, len)) => {
                        proof {
                            crate::codec::lemma_cidr_len_bounds(lv);
                        }
                        if addr as u64 + len > 0x1_0000_0000u64 {
                            proof {
                                assert(line_bad(lv) == Some(CidrError::RangeOverflow));
                                lemma_groups_first_bad_at(gv, g as int, li as int);
                            }
                            return Err(CidrError::RangeOverflow);
                        }
                        let ghost pre = map@;
                        let ok = map.insert(addr, len, grp.label.as_str());
                        proof {
                            lemma_step_insert(
                                gv,
                                g as int,
                                li as int,
                                pre,
                                map@,
                                lv,
                                ok,
                            );
                        }
                    },
                }
                li = li + 1;
            }
            proof {
                lemma_cursor_next_group(gv, g as int, map@);
            }
            g = g + 1;
        }
        proof {
            lemma_groups_all_good(gv);
            if input_clean(gv) {
                assert forall|a: int| (#[trigger] cov_label(map@, a) is Some) == input_covers(
                    gv,
                    a,
                ) by {
                    if cov_label(map@, a) is Some {
                    }
                    if input_covers(gv, a) {
                        let (gg, ii) = choose|gg: int, ii: int|
                            0 <= gg < gv.len() && 0 <= ii < gv[gg].lines.len()
                                && line_block_contains(#[trigger] gv[gg].lines[ii], a);
                        assert(before(gg, ii, gn as int, 0));
                    }
                }
            }
        }
        Ok(map)
    }
}

/// A skipped blank line moves the cursor without touching the map.
proof fn lemma_step_trivial(gs: Seq<GroupV>, g: int, li: int, m: Seq<Ent>)
    requires
        0 <= g < gs.len(),
        0 <= li < gs[g].lines.len(),
        gs[g].lines[li].len() == 0,
        good_upto(gs, g, li),
        sound_upto(gs, g, li, m),
        input_clean(gs) ==> complete_upto(gs, g, li, m),
    ensures
        good_upto(gs, g, li + 1),
        sound_upto(gs, g, li + 1, m),
        input_clean(gs) ==> complete_upto(gs, g, li + 1, m),
{
    assert forall|gg: int, ii: int|
        0 <= gg < gs.len() && 0 <= ii < gs[gg].lines.len() && before(gg, ii, g, li + 1) implies line_bad(
        #[trigger] gs[gg].lines[ii],
    ) is None by {
        if !before(gg, ii, g, li) {
            assert(gg == g && ii == li);
        }
    }
    if input_clean(gs) {
        assert forall|gg: int, ii: int, a: int|
            #![trigger line_block_contains(gs[gg].lines[ii], a)]
            0 <= gg < gs.len() && 0 <= ii < gs[gg].lines.len() && before(gg, ii, g, li + 1)
                && line_block_contains(gs[gg].lines[ii], a) implies cov_label(
            m,
            a,
        ) is Some by {
            if !before(gg, ii, g, li) {
                assert(gg == g && ii == li);
                assert(!line_block_contains(gs[g].lines[li], a));
            }
        }
    }
}

/// Advancing from the end of one group to the start of the next keeps the
/// three cursor predicates.
proof fn lemma_cursor_next_group(gs: Seq<GroupV>, g: int, m: Seq<Ent>)
    requires
        0 <= g < gs.len(),
        good_upto(gs, g, gs[g].lines.len() as int),
        sound_upto(gs, g, gs[g].lines.len() as int, m),
        input_clean(gs) ==> complete_upto(gs, g, gs[g].lines.len() as int, m),
    ensures
        good_upto(gs, g + 1, 0),
        sound_upto(gs, g + 1, 0, m),
        input_clean(gs) ==> complete_upto(gs, g + 1, 0, m),
{
    let li = gs[g].lines.len() as int;
    assert forall|gg: int, ii: int|
        0 <= gg < gs.len() && 0 <= ii < gs[gg].lines.len() && before(gg, ii, g + 1, 0) implies line_bad(
        #[trigger] gs[gg].lines[ii],
    ) is None by {
        assert(before(gg, ii, g, li));
    }
    assert forall|a: int| (#[trigger] cov_label(m, a)) is Some implies exists|
        gg: int,
        ii: int,
    |
        0 <= gg < gs.len() && 0 <= ii < gs[gg].lines.len() && before(gg, ii, g + 1, 0)
            && line_block_contains(#[trigger] gs[gg].lines[ii], a) && gs[gg].label == cov_label(
            m,
            a,
        )->Some_0 by {
        let (gg, ii) = choose|gg: int, ii: int|
            0 <= gg < gs.len() && 0 <= ii < gs[gg].lines.len() && before(gg, ii, g, li)
                && line_block_contains(#[trigger] gs[gg].lines[ii], a) && gs[gg].label
                == cov_label(m, a)->Some_0;
        assert(before(gg, ii, g + 1, 0));
    }
    if input_clean(gs) {
        assert forall|gg: int, ii: int, a: int|
            #![trigger line_block_contains(gs[gg].lines[ii], a)]
            0 <= gg < gs.len() && 0 <= ii < gs[gg].lines.len() && before(gg, ii, g + 1, 0)
                && line_block_contains(gs[gg].lines[ii], a) implies cov_label(
            m,
            a,
        ) is Some by {
            assert(before(gg, ii, g, li));
        }
    }
}

/// One parsed block handed to `insert` keeps the three cursor predicates,
/// whether the insertion was accepted or rejected for a foreign overlap;
/// on clean input it is always accepted.
proof fn lemma_step_insert(
    gs: Seq<GroupV>,
    g: int,
    li: int,
    pre: Seq<Ent>,
    post: Seq<Ent>,
    lv: Seq<char>,
    ok: bool,
)
    requires
        0 <= g < gs.len(),
        0 <= li < gs[g].lines.len(),
        lv == gs[g].lines[li],
        lv.len() > 0,
        cidr_ok(lv),
        cidr_addr(lv) + cidr_len(lv) <= 0x1_0000_0000,
        wf_seq(pre),
        wf_seq(post),
        1 <= cidr_len(lv),
        ok == !foreign_overlap(pre, cidr_addr(lv), cidr_len(lv), gs[g].label),
        ok ==> forall|a: int|
            cov_label(post, a) == cov_upd(pre, cidr_addr(lv), cidr_len(lv), gs[g].label, a),
        !ok ==> post == pre,
        good_upto(gs, g, li),
        sound_upto(gs, g, li, pre),
        input_clean(gs) ==> complete_upto(gs, g, li, pre),
    ensures
        good_upto(gs, g, li + 1),
        sound_upto(gs, g, li + 1, post),
        input_clean(gs) ==> complete_upto(gs, g, li + 1, post),
{
    let st = cidr_addr(lv);
    let ln = cidr_len(lv);
    let lb = gs[g].label;
    assert(line_bad(lv) is None);
    assert(line_block_contains(lv, st));
    assert forall|gg: int, ii: int|
        0 <= gg < gs.len() && 0 <= ii < gs[gg].lines.len() && before(gg, ii, g, li + 1) implies line_bad(
        #[trigger] gs[gg].lines[ii],
    ) is None by {
        if !before(gg, ii, g, li) {
            assert(gg == g && ii == li);
        }
    }
    if !ok {
        // a different-label entry meets the block: on clean input this
        // cannot happen, since every covered address stems from a block
        let i = choose|i: int|
            0 <= i < pre.len() && (#[trigger] pre[i]).label != lb && pre[i].start < st + ln && st
                < ent_end(pre[i]);
        if input_clean(gs) {
            let e = pre[i];
            let a = if st >= e.start {
                st
            } else {
                e.start
            };
            assert(covers(e, a));
            assert(st <= a < st + ln);
            lemma_cov_of_entry(pre, i, a);
            assert(cov_label(pre, a) == Some(e.label));
            let (gg, ii) = choose|gg: int, ii: int|
                0 <= gg < gs.len() && 0 <= ii < gs[gg].lines.len() && before(gg, ii, g, li)
                    && line_block_contains(#[trigger] gs[gg].lines[ii], a) && gs[gg].label
                    == e.label;
            assert(line_block_contains(gs[g].lines[li], a));
            assert(gs[gg].label == gs[g].label);
            assert(false);
        }
        assert forall|a: int| (#[trigger] cov_label(post, a)) is Some implies exists|
            gg: int,
            ii: int,
        |
            0 <= gg < gs.len() && 0 <= ii < gs[gg].lines.len() && before(gg, ii, g, li + 1)
                && line_block_contains(#[trigger] gs[gg].lines[ii], a) && gs[gg].label
                == cov_label(post, a)->Some_0 by {
            let (gg, ii) = choose|gg: int, ii: int|
                0 <= gg < gs.len() && 0 <= ii < gs[gg].lines.len() && before(gg, ii, g, li)
                    && line_block_contains(#[trigger] gs[gg].lines[ii], a) && gs[gg].label
                    == cov_label(pre, a)->Some_0;
            assert(before(gg, ii, g, li + 1));
        }
    } else {
        assert forall|a: int| (#[trigger] cov_label(post, a)) is Some implies exists|
            gg: int,
            ii: int,
        |
            0 <= gg < gs.len() && 0 <= ii < gs[gg].lines.len() && before(gg, ii, g, li + 1)
                && line_block_contains(#[trigger] gs[gg].lines[ii], a) && gs[gg].label
                == cov_label(post, a)->Some_0 by {
            assert(cov_label(post, a) == cov_upd(pre, st, ln, lb, a));
            if st <= a < st + ln {
                assert(line_block_contains(gs[g].lines[li], a));
                assert(before(g, li, g, li + 1));
            } else {
                let (gg, ii) = choose|gg: int, ii: int|
                    0 <= gg < gs.len() && 0 <= ii < gs[gg].lines.len() && before(gg, ii, g, li)
                        && line_block_contains(#[trigger] gs[gg].lines[ii], a) && gs[gg].label
                        == cov_label(pre, a)->Some_0;
                assert(before(gg, ii, g, li + 1));
            }
        }
        if input_clean(gs) {
            assert forall|gg: int, ii: int, a: int|
                #![trigger line_block_contains(gs[gg].lines[ii], a)]
                0 <= gg < gs.len() && 0 <= ii < gs[gg].lines.len() && before(gg, ii, g, li + 1)
                    && line_block_contains(gs[gg].lines[ii], a) implies cov_label(
                post,
                a,
            ) is Some by {
                assert(cov_label(post, a) == cov_upd(pre, st, ln, lb, a));
                if before(gg, ii, g, li) {
                    assert(cov_label(pre, a) is Some);
                } else {
                    assert(gg == g && ii == li);
                    assert(st <= a < st + ln);
                }
            }
        }
    }
}

} // verus!
