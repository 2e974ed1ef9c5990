//! The cross referencer: walks every range of a fine map against a coarse
//! map, splitting at coarse-block boundaries, and emits matched rows or
//! diagnostic lines for unmatched tails.

use vstd::prelude::*;
use crate::codec::{dec_str, format_dec, format_ipv4, ipv4_str};
use crate::interval_map::{cov_ent, covers, CIDRMap, Ent};

verus! {

/// Floor of the base-2 logarithm; 0 for arguments below 2.
pub open spec fn log2_floor(n: int) -> int
    decreases n,
{
    if n < 2 {
        0
    } else {
        1 + log2_floor(n / 2)
    }
}

/// One output row: `<start>,<end>,<fine label>-<coarse label>`.
pub open spec fn row_str(a: int, b: int, fl: Seq<char>, cl: Seq<char>) -> Seq<char> {
    ipv4_str(a) + ","@ + ipv4_str(b) + ","@ + fl + "-"@ + cl
}

/// One diagnostic line for an unmatched remainder of `rem` addresses at
/// `a`.  The prefix is reconstructed as `32 - floor(log2(rem))`: exact for
/// power-of-two remainders, and the documented rounding otherwise.
pub open spec fn diag_str(fl: Seq<char>, a: int, rem: int) -> Seq<char> {
    fl + "-"@ + ipv4_str(a) + "/"@ + dec_str(32 - log2_floor(rem))
        + " is not converted completely!"@
}

/// A found covering entry does cover the queried address.
proof fn lemma_cov_covers(s: Seq<Ent>, a: int)
    ensures
        cov_ent(s, a) matches Some(e) ==> covers(e, a),
    decreases s.len(),
{
    if s.len() > 0 && !covers(s[0], a) {
        lemma_cov_covers(s.drop_first(), a);
    }
}

/// The rows the walk of one fine range emits: consume up to each coarse
/// block's end, stop at the first uncovered address.
pub open spec fn walk_rows(c: Seq<Ent>, addr: int, rem: int, fl: Seq<char>) -> Seq<Seq<char>>
    decreases rem
        via walk_rows_dec
{
    if rem <= 0 {
        Seq::empty()
    } else {
        match cov_ent(c, addr) {
            None => Seq::empty(),
            Some(e) => {
                let avail = e.start + e.len - addr;
                let consumed = if avail < rem {
                    avail
                } else {
                    rem
                };
                let row = row_str(addr, addr + consumed - 1, fl, e.label);
                if consumed >= rem {
                    seq![row]
                } else {
                    seq![row] + walk_rows(c, addr + consumed, rem - consumed, fl)
                }
            },
        }
    }
}

#[via_fn]
proof fn walk_rows_dec(c: Seq<Ent>, addr: int, rem: int, fl: Seq<char>) {
    lemma_cov_covers(c, addr);
}

/// The diagnostic lines the walk of one fine range emits: one line when an
/// uncovered address is reached, none when the range is fully covered.
pub open spec fn walk_logs(c: Seq<Ent>, addr: int, rem: int, fl: Seq<char>) -> Seq<Seq<char>>
    decreases rem
        via walk_logs_dec
{
    if rem <= 0 {
        Seq::empty()
    } else {
        match cov_ent(c, addr) {
            None => seq![diag_str(fl, addr, rem)],
            Some(e) => {
                let avail = e.start + e.len - addr;
                let consumed = if avail < rem {
                    avail
                } else {
                    rem
                };
                if consumed >= rem {
                    Seq::empty()
                } else {
                    walk_logs(c, addr + consumed, rem - consumed, fl)
                }
            },
        }
    }
}

#[via_fn]
proof fn walk_logs_dec(c: Seq<Ent>, addr: int, rem: int, fl: Seq<char>) {
    lemma_cov_covers(c, addr);
}

/// All rows over the fine map, in ascending fine-map order.
pub open spec fn all_rows(f: Seq<Ent>, c: Seq<Ent>) -> Seq<Seq<char>>
    decreases f.len(),
{
    if f.len() == 0 {
        Seq::empty()
    } else {
        walk_rows(c, f[0].start, f[0].len, f[0].label) + all_rows(f.drop_first(), c)
    }
}

/// All diagnostic lines over the fine map, in ascending fine-map order.
pub open spec fn all_logs(f: Seq<Ent>, c: Seq<Ent>) -> Seq<Seq<char>>
    decreases f.len(),
{
    if f.len() == 0 {
        Seq::empty()
    } else {
        walk_logs(c, f[0].start, f[0].len, f[0].label) + all_logs(f.drop_first(), c)
    }
}

/// Views of a vector of built strings.
pub open spec fn strs_of(v: Seq<String>) -> Seq<Seq<char>> {
    v.map_values(|x: String| x@)
}

/// Extending the walked prefix by one fine entry appends that entry's rows
/// and diagnostics.
proof fn lemma_all_take_step(f: Seq<Ent>, c: Seq<Ent>, k: int)
    requires
        0 <= k < f.len(),
    ensures
        all_rows(f.take(k + 1), c) == all_rows(f.take(k), c) + walk_rows(
            c,
            f[k].start,
            f[k].len,
            f[k].label,
        ),
        all_logs(f.take(k + 1), c) == all_logs(f.take(k), c) + walk_logs(
            c,
            f[k].start,
            f[k].len,
            f[k].label,
        ),
    decreases k,
{
    let wr = walk_rows(c, f[k].start, f[k].len, f[k].label);
    let wl = walk_logs(c, f[k].start, f[k].len, f[k].label);
    if k == 0 {
        assert(f.take(0) =~= Seq::<Ent>::empty());
        assert(f.take(1).drop_first() =~= Seq::<Ent>::empty());
        assert(f.take(1)[0] == f[0]);
        assert(all_rows(f.take(1), c) =~= all_rows(f.take(0), c) + wr);
        assert(all_logs(f.take(1), c) =~= all_logs(f.take(0), c) + wl);
    } else {
        let t = f.drop_first();
        assert(f.take(k + 1).drop_first() =~= t.take(k));
        assert(f.take(k).drop_first() =~= t.take(k - 1));
        assert(f.take(k + 1)[0] == f[0]);
        assert(f.take(k)[0] == f[0]);
        assert(t[k - 1] == f[k]);
        lemma_all_take_step(t, c, k - 1);
        let w0r = walk_rows(c, f[0].start, f[0].len, f[0].label);
        let w0l = walk_logs(c, f[0].start, f[0].len, f[0].label);
        assert(all_rows(f.take(k + 1), c) == w0r + (all_rows(t.take(k - 1), c) + wr));
        assert(all_rows(f.take(k), c) == w0r + all_rows(t.take(k - 1), c));
        assert(w0r + (all_rows(t.take(k - 1), c) + wr) =~= (w0r + all_rows(t.take(k - 1), c))
            + wr);
        assert(all_logs(f.take(k + 1), c) == w0l + (all_logs(t.take(k - 1), c) + wl));
        assert(all_logs(f.take(k), c) == w0l + all_logs(t.take(k - 1), c));
        assert(w0l + (all_logs(t.take(k - 1), c) + wl) =~= (w0l + all_logs(t.take(k - 1), c))
            + wl);
    }
}

/// Computes `32 - floor(log2(rem))`, the reconstructed prefix length of a
/// remainder.
fn prefix_of_remainder(rem: u64) -> (r: u32)
    requires
        1 <= rem <= 0x1_0000_0000,
    ensures
        r as int == 32 - log2_floor(rem as int),
        r <= 32,
{
    let ghost rem0 = rem as int;
    let mut p: u64 = rem;
    let mut lg: u32 = 0;
    proof {
        assert(crate::codec::pow2(0) == 1);
    }
    while p >= 2
        invariant
            1 <= p,
            rem0 == rem as int,
            rem0 <= 0x1_0000_0000,
            log2_floor(rem0) == lg + log2_floor(p as int),
            crate::codec::pow2(lg as nat) * (p as int) <= rem0,
            lg <= 33,
        decreases p,
    {
        proof {
            assert(crate::codec::pow2((lg + 1) as nat) == 2 * crate::codec::pow2(lg as nat));
            assert(crate::codec::pow2(lg as nat) >= 1) by {
                crate::codec::lemma_pow2_monotone(0, lg as nat);
            }
            assert(crate::codec::pow2((lg + 1) as nat) * ((p / 2) as int) <= crate::codec::pow2(
                lg as nat,
            ) * (p as int)) by (nonlinear_arith)
                requires
                    crate::codec::pow2((lg + 1) as nat) == 2 * crate::codec::pow2(lg as nat),
                    crate::codec::pow2(lg as nat) >= 1,
                    p >= 2,
            {
            }
            assert(crate::codec::pow2(lg as nat) <= crate::codec::pow2(lg as nat) * (
            p as int)) by (nonlinear_arith)
                requires
                    p >= 1,
                    crate::codec::pow2(lg as nat) >= 1,
            {
            }
            assert(lg + 1 <= 33) by {
                if lg >= 33 {
                    crate::codec::lemma_pow2_monotone(33, lg as nat);
                    crate::codec::lemma_pow2_32();
                    assert(crate::codec::pow2(33) == 2 * crate::codec::pow2(32));
                    assert(false);
                }
            }
        }
        p = p / 2;
        lg = lg + 1;
    }
    proof {
        assert(p == 1 || p == 0);
        assert(log2_floor(p as int) == 0);
        assert(crate::codec::pow2(lg as nat) >= 1) by {
            crate::codec::lemma_pow2_monotone(0, lg as nat);
        }
        assert(crate::codec::pow2(lg as nat) <= crate::codec::pow2(lg as nat) * (
        p as int)) by (nonlinear_arith)
            requires
                p >= 1,
                crate::codec::pow2(lg as nat) >= 1,
        {
        }
        assert(lg <= 32) by {
            if lg >= 33 {
                crate::codec::lemma_pow2_monotone(33, lg as nat);
                crate::codec::lemma_pow2_32();
                assert(crate::codec::pow2(33) == 2 * crate::codec::pow2(32));
                assert(false);
            }
        }
    }
    32 - lg
}

/// Walks every range of the fine map against the coarse map, in ascending
/// order.  Returns exactly the rows and the diagnostic lines of the
/// segmented walk: each fine range is consumed in chunks bounded by coarse
/// blocks, a row `<start>,<end>,<fine>-<coarse>` per chunk; an uncovered
/// remainder yields one diagnostic line and ends that range's walk.
pub fn generate_csv(fine: &CIDRMap, coarse: &CIDRMap) -> (r: (Vec<String>, Vec<String>))
    requires
        fine.wf(),
        coarse.wf(),
    ensures
        strs_of(r.0@) == all_rows(fine@, coarse@),
        strs_of(r.1@) == all_logs(fine@, coarse@),
{
    let mut rows: Vec<String> = Vec::new();
    let mut logs: Vec<String> = Vec::new();
    let n = fine.entry_count();
    proof {
        assert(strs_of(rows@) =~= all_rows(fine@.take(0), coarse@));
        assert(strs_of(logs@) =~= all_logs(fine@.take(0), coarse@));
    }
    let mut idx: usize = 0;
    while idx < n
        invariant
            fine.wf(),
            coarse.wf(),
            n == fine@.len(),
            idx <= n,
            strs_of(rows@) == all_rows(fine@.take(idx as int), coarse@),
            strs_of(logs@) == all_logs(fine@.take(idx as int), coarse@),
        decreases n - idx,
    {
        let (estart, elen, elabel) = fine.get_entry(idx);
        let ghost fent = fine@[idx as int];
        proof {
            assert(crate::interval_map::entry_bounds_ok(fent));
        }
        let ghost target_rows = all_rows(fine@.take(idx as int), coarse@) + walk_rows(
            coarse@,
            fent.start,
            fent.len,
            fent.label,
        );
        let ghost target_logs = all_logs(fine@.take(idx as int), coarse@) + walk_logs(
            coarse@,
            fent.start,
            fent.len,
            fent.label,
        );
        let mut addr: u64 = estart as u64;
        let mut rem: u64 = elen;
        proof {
            assert(strs_of(rows@) + walk_rows(coarse@, addr as int, rem as int, fent.label)
                =~= target_rows);
            assert(strs_of(logs@) + walk_logs(coarse@, addr as int, rem as int, fent.label)
                =~= target_logs);
        }
        while rem > 0
            invariant
                fine.wf(),
                coarse.wf(),
                elabel@ == fent.label,
                fent.start <= addr as int,
                addr as int + rem as int <= fent.start + fent.len,
                rem > 0 ==> addr as int + rem as int == fent.start + fent.len,
                fent.start + fent.len <= 0x1_0000_0000,
                strs_of(rows@) + walk_rows(coarse@, addr as int, rem as int, fent.label)
                    == target_rows,
                strs_of(logs@) + walk_logs(coarse@, addr as int, rem as int, fent.label)
                    == target_logs,
            decreases rem,
        {
            let ghost addr0 = addr as int;
            let ghost rem0 = rem as int;
            match coarse.query_ipv4(addr as u32) {
                Some(q) => {
                    let ghost ce = cov_ent(coarse@, addr0)->Some_0;
                    proof {
                        lemma_cov_covers(coarse@, addr0);
                        assert(q.range as int == ce.start + ce.len - addr0);
                        assert(q.label@ == ce.label);
                        assert(q.range >= 1);
                    }
                    let consumed: u64 = if q.range < rem {
                        q.range
                    } else {
                        rem
                    };
                    let end_addr: u64 = addr + consumed - 1;
                    let mut row = format_ipv4(addr as u32);
                    row.append(",");
                    let end_str = format_ipv4(end_addr as u32);
                    row.append(end_str.as_str());
                    row.append(",");
                    row.append(elabel.as_str());
                    row.append("-");
                    row.append(q.label.as_str());
                    proof {
                        assert(row@ =~= row_str(addr0, addr0 + consumed - 1, fent.label, ce.label));
                    }
                    let ghost rows_prev = rows@;
                    rows.push(row);
                    proof {
                        assert(strs_of(rows@) =~= strs_of(rows_prev).push(
                            row_str(addr0, addr0 + consumed - 1, fent.label, ce.label),
                        ));
                        assert(walk_rows(coarse@, addr0, rem0, fent.label) == seq![
                            row_str(addr0, addr0 + consumed - 1, fent.label, ce.label),
                        ] + if consumed < rem {
                            walk_rows(coarse@, addr0 + consumed, rem0 - consumed, fent.label)
                        } else {
                            Seq::<Seq<char>>::empty()
                        }) by {
                            if consumed as int >= rem0 {
                                assert(seq![
                                    row_str(addr0, addr0 + consumed - 1, fent.label, ce.label),
                                ] + Seq::<Seq<char>>::empty() =~= seq![
                                    row_str(addr0, addr0 + consumed - 1, fent.label, ce.label),
                                ]);
                            }
                        }
                        assert(strs_of(rows@) + (if consumed < rem {
                            walk_rows(coarse@, addr0 + consumed, rem0 - consumed, fent.label)
                        } else {
                            Seq::<Seq<char>>::empty()
                        }) =~= target_rows);
                        assert(walk_logs(coarse@, addr0, rem0, fent.label) == if consumed < rem {
                            walk_logs(coarse@, addr0 + consumed, rem0 - consumed, fent.label)
                        } else {
                            Seq::<Seq<char>>::empty()
                        });
                    }
                    if consumed < rem {
                        addr = addr + consumed;
                        rem = rem - consumed;
                    } else {
                        rem = 0;
                        proof {
                            assert(walk_rows(coarse@, addr as int, 0, fent.label)
                                =~= Seq::<Seq<char>>::empty());
                            assert(walk_logs(coarse@, addr as int, 0, fent.label)
                                =~= Seq::<Seq<char>>::empty());
                            assert(strs_of(rows@) + Seq::<Seq<char>>::empty() =~= strs_of(rows@));
                            assert(strs_of(logs@) + Seq::<Seq<char>>::empty() =~= strs_of(logs@));
                        }
                    }
                },
                None => {
                    let mut d = elabel.clone();
                    d.append("-");
                    let a_str = format_ipv4(addr as u32);
                    d.append(a_str.as_str());
                    d.append("/");
                    let pfx = prefix_of_remainder(rem);
                    let pfx_str = format_dec(pfx);
                    d.append(pfx_str.as_str());
                    d.append(" is not converted completely!");
                    proof {
                        assert(d@ =~= diag_str(fent.label, addr0, rem0));
                    }
                    let ghost logs_prev = logs@;
                    logs.push(d);
                    proof {
                        assert(walk_rows(coarse@, addr0, rem0, fent.label)
                            =~= Seq::<Seq<char>>::empty());
                        assert(walk_logs(coarse@, addr0, rem0, fent.label) =~= seq![
                            diag_str(fent.label, addr0, rem0),
                        ]);
                        assert(strs_of(logs@) =~= strs_of(logs_prev).push(
                            diag_str(fent.label, addr0, rem0),
                        ));
                        assert(strs_of(logs@) + Seq::<Seq<char>>::empty() =~= target_logs);
                        assert(strs_of(rows@) + Seq::<Seq<char>>::empty() =~= target_rows);
                    }
                    rem = 0;
                    proof {
                        assert(walk_rows(coarse@, addr as int, 0, fent.label)
                            =~= Seq::<Seq<char>>::empty());
                        assert(walk_logs(coarse@, addr as int, 0, fent.label)
                            =~= Seq::<Seq<char>>::empty());
                    }
                },
            }
        }
        proof {
            assert(walk_rows(coarse@, addr as int, rem as int, fent.label)
                =~= Seq::<Seq<char>>::empty());
            assert(walk_logs(coarse@, addr as int, rem as int, fent.label)
                =~= Seq::<Seq<char>>::empty());
            assert(strs_of(rows@) =~= target_rows);
            assert(strs_of(logs@) =~= target_logs);
            lemma_all_take_step(fine@, coarse@, idx as int);
        }
        idx = idx + 1;
    }
    proof {
        assert(fine@.take(n as int) =~= fine@);
    }
    (rows, logs)
}

} // verus!
