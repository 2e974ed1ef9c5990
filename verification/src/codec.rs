//! CIDR codec: parsing of `"a.b.c.d/prefix"` lines into a start address and
//! a block length, and the inverse dotted-quad formatting.

use vstd::prelude::*;

verus! {

/// Why a CIDR line or a batch of lines was rejected.
#[derive(Debug, Clone, Copy, PartialEq, Eq, Structural)]
pub enum CidrError {
    /// The line is not `<dotted quad>/<prefix 0..=32>`.
    MalformedCidr,
    /// The block reaches past the end of the 32-bit address space.
    RangeOverflow,
}

pub open spec fn is_digit(c: char) -> bool {
    '0' <= c && c <= '9'
}

pub open spec fn digit_val(c: char) -> int {
    c as int - '0' as int
}

pub open spec fn all_digits(s: Seq<char>) -> bool {
    forall|i: int| 0 <= i < s.len() ==> is_digit(#[trigger] s[i])
}

/// Value of a string of decimal digits, most significant first.
pub open spec fn dec_val(s: Seq<char>) -> int
    decreases s.len(),
{
    if s.len() == 0 {
        0
    } else {
        dec_val(s.drop_last()) * 10 + digit_val(s.last())
    }
}

/// A non-empty run of decimal digits.
pub open spec fn num_token(s: Seq<char>) -> bool {
    s.len() >= 1 && all_digits(s)
}

/// Index of the first occurrence of `c` in `s`, or `s.len()` if none.
pub open spec fn idx_of(s: Seq<char>, c: char) -> int
    decreases s.len(),
{
    if s.len() == 0 {
        0
    } else if s[0] == c {
        0
    } else {
        1 + idx_of(s.drop_first(), c)
    }
}

pub proof fn lemma_idx_of_bounds(s: Seq<char>, c: char)
    ensures
        0 <= idx_of(s, c) <= s.len(),
        forall|j: int| 0 <= j < idx_of(s, c) ==> s[j] != c,
        idx_of(s, c) < s.len() ==> s[idx_of(s, c)] == c,
    decreases s.len(),
{
    if s.len() > 0 && s[0] != c {
        lemma_idx_of_bounds(s.drop_first(), c);
        assert forall|j: int| 0 <= j < idx_of(s, c) implies s[j] != c by {
            if j > 0 {
                assert(s.drop_first()[j - 1] == s[j]);
            }
        }
        if idx_of(s, c) < s.len() {
            assert(s.drop_first()[idx_of(s, c) - 1] == s[idx_of(s, c)]);
        }
    }
}

/// The first occurrence determines `idx_of` exactly.
pub proof fn lemma_idx_of_from_witness(s: Seq<char>, c: char, k: int)
    requires
        0 <= k <= s.len(),
        forall|j: int| 0 <= j < k ==> s[j] != c,
        k < s.len() ==> s[k] == c,
    ensures
        idx_of(s, c) == k,
    decreases s.len(),
{
    if s.len() == 0 {
    } else if s[0] == c {
    } else {
        assert forall|j: int| 0 <= j < k - 1 implies s.drop_first()[j] != c by {
            assert(s.drop_first()[j] == s[j + 1]);
        }
        if k < s.len() {
            assert(s.drop_first()[k - 1] == s[k]);
        }
        lemma_idx_of_from_witness(s.drop_first(), c, k - 1);
    }
}

/// Powers of two.
pub open spec fn pow2(n: nat) -> nat
    decreases n,
{
    if n == 0 {
        1nat
    } else {
        2 * pow2((n - 1) as nat)
    }
}

pub proof fn lemma_pow2_32()
    ensures
        pow2(32) == 0x1_0000_0000,
{
    reveal_with_fuel(pow2, 33);
}

pub proof fn lemma_pow2_bounds(n: nat)
    requires
        n <= 32,
    ensures
        1 <= pow2(n) <= 0x1_0000_0000,
{
    lemma_pow2_monotone(0, n);
    lemma_pow2_monotone(n, 32);
    lemma_pow2_32();
}

pub proof fn lemma_pow2_monotone(m: nat, n: nat)
    requires
        m <= n,
    ensures
        pow2(m) <= pow2(n),
    decreases n,
{
    if m < n {
        lemma_pow2_monotone(m, (n - 1) as nat);
    }
}

pub proof fn lemma_dec_val_take_le(t: Seq<char>, k: int)
    requires
        all_digits(t),
        0 <= k <= t.len(),
    ensures
        0 <= dec_val(t.take(k)) <= dec_val(t),
    decreases t.len(),
{
    if t.len() == 0 {
        assert(t.take(k) =~= t);
    } else {
        assert(all_digits(t.drop_last()));
        lemma_dec_val_take_le(t.drop_last(), if k < t.len() { k } else { k - 1 });
        if k < t.len() {
            assert(t.drop_last().take(k) =~= t.take(k));
        } else {
            assert(t.take(k) =~= t);
        }
        assert(is_digit(t.last()));
    }
}

/// A numeric token whose value fits a byte.
pub open spec fn byte_token(t: Seq<char>) -> bool {
    num_token(t) && dec_val(t) <= 255
}

/// The dotted-quad grammar: four byte-valued numeric tokens joined by `'.'`.
pub open spec fn quad_ok(q: Seq<char>) -> bool {
    let i1 = idx_of(q, '.');
    i1 < q.len() && {
        let r1 = q.skip(i1 + 1);
        let i2 = idx_of(r1, '.');
        i2 < r1.len() && {
            let r2 = r1.skip(i2 + 1);
            let i3 = idx_of(r2, '.');
            i3 < r2.len() && byte_token(q.take(i1)) && byte_token(r1.take(i2)) && byte_token(
                r2.take(i3),
            ) && byte_token(r2.skip(i3 + 1))
        }
    }
}

/// The address encoded by a well-formed dotted quad, big-endian.
pub open spec fn quad_val(q: Seq<char>) -> int {
    let i1 = idx_of(q, '.');
    let r1 = q.skip(i1 + 1);
    let i2 = idx_of(r1, '.');
    let r2 = r1.skip(i2 + 1);
    let i3 = idx_of(r2, '.');
    dec_val(q.take(i1)) * 0x100_0000 + dec_val(r1.take(i2)) * 0x1_0000 + dec_val(r2.take(i3))
        * 0x100 + dec_val(r2.skip(i3 + 1))
}

/// A well-formed CIDR line: a dotted quad, one `'/'`, and a prefix in 0..=32.
pub open spec fn cidr_ok(s: Seq<char>) -> bool {
    let k = idx_of(s, '/');
    k < s.len() && quad_ok(s.take(k)) && num_token(s.skip(k + 1)) && dec_val(s.skip(k + 1)) <= 32
}

pub open spec fn cidr_addr(s: Seq<char>) -> int {
    quad_val(s.take(idx_of(s, '/')))
}

pub open spec fn cidr_prefix(s: Seq<char>) -> int {
    dec_val(s.skip(idx_of(s, '/') + 1))
}

/// The block length `2^(32 - prefix)` of a well-formed CIDR line.
pub open spec fn cidr_len(s: Seq<char>) -> int {
    pow2((32 - cidr_prefix(s)) as nat) as int
}

/// Position of the first `c` in `s@` within `[from, to)`, or `to` if none.
fn find_char(s: &str, from: usize, to: usize, c: char) -> (r: usize)
    requires
        from <= to <= s@.len(),
    ensures
        from <= r <= to,
        forall|j: int| from <= j < r ==> s@[j] != c,
        r < to ==> s@[r as int] == c,
{
    let mut i: usize = from;
    while i < to
        invariant
            from <= i <= to <= s@.len(),
            forall|j: int| from <= j < i ==> s@[j] != c,
        decreases to - i,
    {
        if s.get_char(i) == c {
            return i;
        }
        i = i + 1;
    }
    i
}

/// Parses `s@.subrange(from, to)` as a decimal number of value at most `max`.
fn parse_num(s: &str, from: usize, to: usize, max: u32) -> (r: Result<u32, CidrError>)
    requires
        from <= to <= s@.len(),
        max <= 255,
    ensures
        r is Ok <==> num_token(s@.subrange(from as int, to as int)) && dec_val(
            s@.subrange(from as int, to as int),
        ) <= max,
        r matches Ok(v) ==> v as int == dec_val(s@.subrange(from as int, to as int)),
        r matches Err(e) ==> e == CidrError::MalformedCidr,
{
    let ghost sub = s@.subrange(from as int, to as int);
    let mut i: usize = from;
    let mut val: u32 = 0;
    while i < to
        invariant
            from <= i <= to <= s@.len(),
            max <= 255,
            sub == s@.subrange(from as int, to as int),
            all_digits(sub.take(i - from)),
            val as int == dec_val(sub.take(i - from)),
            val <= max,
        decreases to - i,
    {
        let ch = s.get_char(i);
        let cv = ch as u32;
        if cv < 48 || cv > 57 {
            assert(sub[i - from] == ch);
            assert(!is_digit(ch));
            return Err(CidrError::MalformedCidr);
        }
        let d = cv - 48;
        let nv = val * 10 + d;
        proof {
            assert(sub.take(i - from + 1).drop_last() =~= sub.take(i - from));
            assert(sub.take(i - from + 1).last() == ch);
            assert(is_digit(ch));
            assert(digit_val(ch) == d as int);
        }
        if nv > max {
            proof {
                if num_token(sub) {
                    lemma_dec_val_take_le(sub, i - from + 1);
                }
            }
            return Err(CidrError::MalformedCidr);
        }
        val = nv;
        i = i + 1;
    }
    if from == to {
        return Err(CidrError::MalformedCidr);
    }
    proof {
        assert(sub.take(to - from) =~= sub);
    }
    Ok(val)
}

/// Computes `2^e` for `e <= 32`.
fn pow2_exec(e: u32) -> (r: u64)
    requires
        e <= 32,
    ensures
        r as int == pow2(e as nat),
{
    let mut l: u64 = 1;
    let mut t: u32 = 0;
    while t < e
        invariant
            t <= e <= 32,
            l as int == pow2(t as nat),
        decreases e - t,
    {
        proof {
            lemma_pow2_bounds((t + 1) as nat);
        }
        l = l * 2;
        t = t + 1;
    }
    l
}

/// Parses a `"a.b.c.d/prefix"` line into its start address and the block
/// length `2^(32 - prefix)`.  Fails with `MalformedCidr` exactly when the
/// line does not meet the grammar: one `'/'`, a dotted quad of byte values,
/// a prefix in 0..=32.
#[verifier::rlimit(100)]
pub fn cidr_depacker(cidr: &str) -> (r: Result<(u32, u64), CidrError>)
    ensures
        r is Ok <==> cidr_ok(cidr@),
        r matches Ok(p) ==> p.0 as int == cidr_addr(cidr@) && p.1 as int == cidr_len(cidr@),
        r matches Err(e) ==> e == CidrError::MalformedCidr,
{
    let n = cidr.unicode_len();
    let k = find_char(cidr, 0, n, '/');
    proof {
        lemma_idx_of_from_witness(cidr@, '/', k as int);
    }
    if k == n {
        return Err(CidrError::MalformedCidr);
    }
    let ghost q = cidr@.take(k as int);
    let d1 = find_char(cidr, 0, k, '.');
    proof {
        assert forall|j: int| 0 <= j < d1 implies q[j] != '.' by {
            assert(q[j] == cidr@[j]);
        }
        lemma_idx_of_from_witness(q, '.', d1 as int);
    }
    if d1 == k {
        return Err(CidrError::MalformedCidr);
    }
    let ghost r1 = q.skip(d1 + 1);
    let d2 = find_char(cidr, d1 + 1, k, '.');
    proof {
        assert forall|j: int| 0 <= j < d2 - d1 - 1 implies r1[j] != '.' by {
            assert(r1[j] == cidr@[d1 + 1 + j]);
        }
        if d2 < k {
            assert(r1[d2 - d1 - 1] == cidr@[d2 as int]);
        }
        lemma_idx_of_from_witness(r1, '.', d2 - d1 - 1);
    }
    if d2 == k {
        return Err(CidrError::MalformedCidr);
    }
    let ghost r2 = r1.skip(d2 - d1);
    proof {
        assert(r2 =~= cidr@.subrange(d2 + 1, k as int));
    }
    let d3 = find_char(cidr, d2 + 1, k, '.');
    proof {
        assert forall|j: int| 0 <= j < d3 - d2 - 1 implies r2[j] != '.' by {
            assert(r2[j] == cidr@[d2 + 1 + j]);
        }
        if d3 < k {
            assert(r2[d3 - d2 - 1] == cidr@[d3 as int]);
        }
        lemma_idx_of_from_witness(r2, '.', d3 - d2 - 1);
    }
    if d3 == k {
        return Err(CidrError::MalformedCidr);
    }
    proof {
        assert(q.take(d1 as int) =~= cidr@.subrange(0, d1 as int));
        assert(r1.take(d2 - d1 - 1) =~= cidr@.subrange(d1 + 1, d2 as int));
        assert(r2.take(d3 - d2 - 1) =~= cidr@.subrange(d2 + 1, d3 as int));
        assert(r2.skip(d3 - d2) =~= cidr@.subrange(d3 + 1, k as int));
        assert(cidr@.skip(k + 1) =~= cidr@.subrange(k + 1, n as int));
    }
    let b1 = match parse_num(cidr, 0, d1, 255) {
        Ok(v) => v,
        Err(e) => { return Err(e) },
    };
    let b2 = match parse_num(cidr, d1 + 1, d2, 255) {
        Ok(v) => v,
        Err(e) => { return Err(e) },
    };
    let b3 = match parse_num(cidr, d2 + 1, d3, 255) {
        Ok(v) => v,
        Err(e) => { return Err(e) },
    };
    let b4 = match parse_num(cidr, d3 + 1, k, 255) {
        Ok(v) => v,
        Err(e) => { return Err(e) },
    };
    let p = match parse_num(cidr, k + 1, n, 32) {
        Ok(v) => v,
        Err(e) => { return Err(e) },
    };
    let addr = b1 * 0x100_0000 + b2 * 0x1_0000 + b3 * 0x100 + b4;
    let len = pow2_exec(32 - p);
    Ok((addr, len))
}

pub open spec fn char_of_digit(d: int) -> char {
    if d == 0 {
        '0'
    } else if d == 1 {
        '1'
    } else if d == 2 {
        '2'
    } else if d == 3 {
        '3'
    } else if d == 4 {
        '4'
    } else if d == 5 {
        '5'
    } else if d == 6 {
        '6'
    } else if d == 7 {
        '7'
    } else if d == 8 {
        '8'
    } else {
        '9'
    }
}

/// Canonical decimal rendering of a non-negative number.
pub open spec fn dec_str(n: int) -> Seq<char>
    decreases n,
{
    if n < 10 {
        seq![char_of_digit(n)]
    } else {
        dec_str(n / 10).push(char_of_digit(n % 10))
    }
}

/// Canonical dotted-quad rendering of a 32-bit address.
pub open spec fn ipv4_str(a: int) -> Seq<char> {
    dec_str(a / 0x100_0000 % 256) + seq!['.'] + dec_str(a / 0x1_0000 % 256) + seq!['.'] + dec_str(
        a / 0x100 % 256,
    ) + seq!['.'] + dec_str(a % 256)
}

fn push_digit(s: &mut String, d: u32)
    requires
        d < 10,
    ensures
        final(s)@ == old(s)@.push(char_of_digit(d as int)),
{
    if d == 0 {
        s.append("0");
        proof {
            reveal_strlit("0");
            assert(s@ =~= old(s)@.push('0'));
        }
    } else if d == 1 {
        s.append("1");
        proof {
            reveal_strlit("1");
            assert(s@ =~= old(s)@.push('1'));
        }
    } else if d == 2 {
        s.append("2");
        proof {
            reveal_strlit("2");
            assert(s@ =~= old(s)@.push('2'));
        }
    } else if d == 3 {
        s.append("3");
        proof {
            reveal_strlit("3");
            assert(s@ =~= old(s)@.push('3'));
        }
    } else if d == 4 {
        s.append("4");
        proof {
            reveal_strlit("4");
            assert(s@ =~= old(s)@.push('4'));
        }
    } else if d == 5 {
        s.append("5");
        proof {
            reveal_strlit("5");
            assert(s@ =~= old(s)@.push('5'));
        }
    } else if d == 6 {
        s.append("6");
        proof {
            reveal_strlit("6");
            assert(s@ =~= old(s)@.push('6'));
        }
    } else if d == 7 {
        s.append("7");
        proof {
            reveal_strlit("7");
            assert(s@ =~= old(s)@.push('7'));
        }
    } else if d == 8 {
        s.append("8");
        proof {
            reveal_strlit("8");
            assert(s@ =~= old(s)@.push('8'));
        }
    } else {
        s.append("9");
        proof {
            reveal_strlit("9");
            assert(s@ =~= old(s)@.push('9'));
        }
    }
}

fn push_dec(s: &mut String, v: u32)
    requires
        v <= 255,
    ensures
        final(s)@ == old(s)@ + dec_str(v as int),
{
    if v < 10 {
        push_digit(s, v);
        proof {
            assert(s@ =~= old(s)@ + dec_str(v as int));
        }
    } else if v < 100 {
        push_digit(s, v / 10);
        push_digit(s, v % 10);
        proof {
            assert(dec_str(v as int) == dec_str(v as int / 10).push(char_of_digit(v as int % 10)));
            assert(dec_str(v as int / 10) == seq![char_of_digit(v as int / 10)]);
            assert(s@ =~= old(s)@ + dec_str(v as int));
        }
    } else {
        push_digit(s, v / 100);
        push_digit(s, v / 10 % 10);
        push_digit(s, v % 10);
        proof {
            assert(v / 10 / 10 == v / 100);
            assert(dec_str(v as int) == dec_str(v as int / 10).push(char_of_digit(v as int % 10)));
            assert(dec_str(v as int / 10) == dec_str(v as int / 100).push(
                char_of_digit(v as int / 10 % 10),
            ));
            assert(s@ =~= old(s)@ + dec_str(v as int));
        }
    }
}

/// Renders an address as a dotted quad: the inverse of parsing the left side
/// of a CIDR line.
pub fn format_ipv4(a: u32) -> (r: String)
    ensures
        r@ == ipv4_str(a as int),
{
    let mut s = String::new();
    push_dec(&mut s, a / 0x100_0000);
    s.append(".");
    push_dec(&mut s, a / 0x1_0000 % 256);
    s.append(".");
    push_dec(&mut s, a / 0x100 % 256);
    s.append(".");
    push_dec(&mut s, a % 256);
    proof {
        reveal_strlit(".");
        assert(a as int / 0x100_0000 % 256 == a as int / 0x100_0000);
        assert(s@ =~= ipv4_str(a as int));
    }
    s
}

/// A well-formed line's prefix lies in 0..=32, so its block length is a
/// positive power of two no larger than the address space.
pub proof fn lemma_cidr_len_bounds(s: Seq<char>)
    requires
        cidr_ok(s),
    ensures
        0 <= cidr_prefix(s) <= 32,
        1 <= cidr_len(s) <= 0x1_0000_0000,
{
    let k = idx_of(s, '/');
    let t = s.skip(k + 1);
    lemma_dec_val_take_le(t, t.len() as int);
    assert(t.take(t.len() as int) =~= t);
    lemma_pow2_bounds((32 - cidr_prefix(s)) as nat);
}

/// Renders a small number in decimal.
pub fn format_dec(v: u32) -> (r: String)
    requires
        v <= 255,
    ensures
        r@ == dec_str(v as int),
{
    let mut s = String::new();
    push_dec(&mut s, v);
    proof {
        assert(s@ =~= dec_str(v as int));
    }
    s
}

/// A numeric token written canonically: no leading zero, except `"0"` itself.
pub open spec fn canon_num(t: Seq<char>) -> bool {
    num_token(t) && (t.len() == 1 || t[0] != '0')
}

pub proof fn lemma_dec_val_pos(t: Seq<char>)
    requires
        num_token(t),
        t[0] != '0',
    ensures
        dec_val(t) >= 1,
    decreases t.len(),
{
    if t.len() == 1 {
        assert(t.last() == t[0]);
        assert(t.drop_last().len() == 0);
        assert(dec_val(t.drop_last()) == 0);
        assert(dec_val(t) == digit_val(t[0]));
        assert(is_digit(t[0]));
        assert(t[0] as int != '0' as int);
    } else {
        assert(all_digits(t.drop_last()));
        assert(t.drop_last()[0] == t[0]);
        lemma_dec_val_pos(t.drop_last());
        assert(is_digit(t.last()));
    }
}

/// Rendering the value of a canonical numeric token gives the token back.
pub proof fn lemma_dec_str_round_trip(t: Seq<char>)
    requires
        canon_num(t),
    ensures
        dec_str(dec_val(t)) == t,
    decreases t.len(),
{
    if t.len() == 1 {
        assert(t.last() == t[0]);
        assert(t.drop_last().len() == 0);
        assert(dec_val(t.drop_last()) == 0);
        assert(dec_val(t) == digit_val(t[0]));
        assert(is_digit(t[0]));
        assert(dec_str(dec_val(t)) =~= t);
    } else {
        let t1 = t.drop_last();
        assert(all_digits(t1));
        assert(t1[0] == t[0]);
        lemma_dec_val_pos(t1);
        lemma_dec_str_round_trip(t1);
        let v = dec_val(t);
        let d = digit_val(t.last());
        assert(is_digit(t.last()));
        assert(v == dec_val(t1) * 10 + d);
        assert(v / 10 == dec_val(t1) && v % 10 == d);
        assert(char_of_digit(d) == t.last());
        assert(v >= 10);
        assert(dec_str(v) =~= t);
    }
}

/// A well-formed CIDR line whose dotted quad is written canonically.
pub open spec fn cidr_canonical(s: Seq<char>) -> bool {
    let k = idx_of(s, '/');
    let q = s.take(k);
    let i1 = idx_of(q, '.');
    let r1 = q.skip(i1 + 1);
    let i2 = idx_of(r1, '.');
    let r2 = r1.skip(i2 + 1);
    let i3 = idx_of(r2, '.');
    cidr_ok(s) && canon_num(q.take(i1)) && canon_num(r1.take(i2)) && canon_num(r2.take(i3))
        && canon_num(r2.skip(i3 + 1))
}

/// Round trip: formatting the parsed start address reproduces the
/// dotted-quad part of the line.  This holds for canonically written lines;
/// a line with a leading zero in a component (such as `"01.2.3.4/24"`)
/// parses to the same address as its canonical form, so formatting cannot
/// reproduce it.
proof fn lemma_quad_divmod(v1: int, v2: int, v3: int, v4: int, a: int)
    requires
        0 <= v1 <= 255,
        0 <= v2 <= 255,
        0 <= v3 <= 255,
        0 <= v4 <= 255,
        a == v1 * 0x100_0000 + v2 * 0x1_0000 + v3 * 0x100 + v4,
    ensures
        a / 0x100_0000 % 256 == v1,
        a / 0x1_0000 % 256 == v2,
        a / 0x100 % 256 == v3,
        a % 256 == v4,
{
    assert(a / 0x100_0000 == v1);
    assert(a / 0x1_0000 == v1 * 0x100 + v2);
    assert(a / 0x100 == (v1 * 0x100 + v2) * 0x100 + v3);
}

/// A dotted quad in canonical form: four canonical byte tokens.
pub open spec fn quad_canonical(q: Seq<char>) -> bool {
    let i1 = idx_of(q, '.');
    let r1 = q.skip(i1 + 1);
    let i2 = idx_of(r1, '.');
    let r2 = r1.skip(i2 + 1);
    let i3 = idx_of(r2, '.');
    quad_ok(q) && canon_num(q.take(i1)) && canon_num(r1.take(i2)) && canon_num(r2.take(i3))
        && canon_num(r2.skip(i3 + 1))
}

#[verifier::rlimit(100)]
proof fn lemma_quad_recompose(q: Seq<char>)
    requires
        quad_ok(q),
    ensures
        ({
            let i1 = idx_of(q, '.');
            let r1 = q.skip(i1 + 1);
            let i2 = idx_of(r1, '.');
            let r2 = r1.skip(i2 + 1);
            let i3 = idx_of(r2, '.');
            q == q.take(i1) + seq!['.'] + r1.take(i2) + seq!['.'] + r2.take(i3) + seq!['.']
                + r2.skip(i3 + 1)
        }),
{
    let i1 = idx_of(q, '.');
    let r1 = q.skip(i1 + 1);
    let i2 = idx_of(r1, '.');
    let r2 = r1.skip(i2 + 1);
    let i3 = idx_of(r2, '.');
    lemma_idx_of_bounds(q, '.');
    lemma_idx_of_bounds(r1, '.');
    lemma_idx_of_bounds(r2, '.');
    assert(q =~= q.take(i1) + seq!['.'] + r1);
    assert(r1 =~= r1.take(i2) + seq!['.'] + r2);
    assert(r2 =~= r2.take(i3) + seq!['.'] + r2.skip(i3 + 1));
    assert(q =~= q.take(i1) + seq!['.'] + r1.take(i2) + seq!['.'] + r2.take(i3) + seq!['.']
        + r2.skip(i3 + 1));
}

#[verifier::rlimit(100)]
proof fn lemma_quad_round_trip(q: Seq<char>)
    requires
        quad_canonical(q),
    ensures
        ipv4_str(quad_val(q)) == q,
{
    let i1 = idx_of(q, '.');
    let r1 = q.skip(i1 + 1);
    let i2 = idx_of(r1, '.');
    let r2 = r1.skip(i2 + 1);
    let i3 = idx_of(r2, '.');
    let p1 = q.take(i1);
    let p2 = r1.take(i2);
    let p3 = r2.take(i3);
    let p4 = r2.skip(i3 + 1);
    let v1 = dec_val(p1);
    let v2 = dec_val(p2);
    let v3 = dec_val(p3);
    let v4 = dec_val(p4);
    lemma_idx_of_bounds(q, '.');
    lemma_idx_of_bounds(r1, '.');
    lemma_idx_of_bounds(r2, '.');
    lemma_dec_val_take_le(p1, p1.len() as int);
    lemma_dec_val_take_le(p2, p2.len() as int);
    lemma_dec_val_take_le(p3, p3.len() as int);
    lemma_dec_val_take_le(p4, p4.len() as int);
    let a = quad_val(q);
    assert(a == v1 * 0x100_0000 + v2 * 0x1_0000 + v3 * 0x100 + v4);
    lemma_quad_divmod(v1, v2, v3, v4, a);
    lemma_dec_str_round_trip(p1);
    lemma_dec_str_round_trip(p2);
    lemma_dec_str_round_trip(p3);
    lemma_dec_str_round_trip(p4);
    lemma_quad_recompose(q);
    assert(ipv4_str(a) == p1 + seq!['.'] + p2 + seq!['.'] + p3 + seq!['.'] + p4);
}

/// Round trip: formatting the parsed start address reproduces the
/// dotted-quad part of the line.  This holds for canonically written lines;
/// a line with a leading zero in a component (such as `"01.2.3.4/24"`)
/// parses to the same address as its canonical form, so formatting cannot
/// reproduce it.
pub proof fn lemma_format_parse_round_trip(s: Seq<char>)
    requires
        cidr_canonical(s),
    ensures
        ipv4_str(cidr_addr(s)) == s.take(idx_of(s, '/')),
{
    lemma_quad_round_trip(s.take(idx_of(s, '/')));
}

} // verus!
