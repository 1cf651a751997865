//! Textual forms of numbers and IP addresses: decimal, lower-case hex,
//! dotted-quad IPv4 and RFC 5952 IPv6.
use vstd::prelude::*;
use vstd::string::*;

verus! {

/// The character of digit `d` (0 to 15): `0`-`9`, then `a`-`f`.
pub open spec fn digit_char(d: int) -> char {
    if d < 10 {
        (48 + d) as char
    } else {
        (87 + d) as char
    }
}

/// Decimal form of `n`, without leading zeros.
pub open spec fn dec_text(n: nat) -> Seq<char>
    decreases n,
{
    if n < 10 {
        seq![digit_char(n as int)]
    } else {
        dec_text(n / 10).push(digit_char((n % 10) as int))
    }
}

/// Lower-case hexadecimal form of `n`, without leading zeros.
pub open spec fn hex_text(n: nat) -> Seq<char>
    decreases n,
{
    if n < 16 {
        seq![digit_char(n as int)]
    } else {
        hex_text(n / 16).push(digit_char((n % 16) as int))
    }
}

/// Dotted-quad form of the four bytes `b[0..4]`.
pub open spec fn ipv4_text(b: Seq<u8>) -> Seq<char> {
    dec_text(b[0] as nat) + seq!['.'] + dec_text(b[1] as nat) + seq!['.'] + dec_text(b[2] as nat)
        + seq!['.'] + dec_text(b[3] as nat)
}

/// The sixteen-bit groups of a sixteen-byte IPv6 address.
pub open spec fn ipv6_groups(b: Seq<u8>) -> Seq<nat> {
    Seq::new(8, |i: int| (b[2 * i] as nat) * 256 + (b[2 * i + 1] as nat))
}

/// Groups in hex, separated by colons.
pub open spec fn join_hex(gs: Seq<nat>) -> Seq<char>
    decreases gs.len(),
{
    if gs.len() == 0 {
        Seq::empty()
    } else if gs.len() == 1 {
        hex_text(gs[0])
    } else {
        join_hex(gs.drop_last()) + seq![':'] + hex_text(gs.last())
    }
}

/// The first longest run of zero groups at or after `i`, given the run that
/// is open at `i` (`cur`, as start and length) and the best run so far.
pub open spec fn zero_run_scan(gs: Seq<nat>, i: int, cur: (int, int), best: (int, int)) -> (int, int)
    decreases gs.len() - i,
{
    if i < 0 || i >= gs.len() {
        best
    } else if gs[i] == 0 {
        let cur2 = if cur.1 == 0 {
            (i, 1int)
        } else {
            (cur.0, cur.1 + 1)
        };
        let best2 = if cur2.1 > best.1 {
            cur2
        } else {
            best
        };
        zero_run_scan(gs, i + 1, cur2, best2)
    } else {
        zero_run_scan(gs, i + 1, (0, 0), best)
    }
}

/// Start and length of the first longest run of zero groups.
pub open spec fn longest_zero_run(gs: Seq<nat>) -> (int, int) {
    zero_run_scan(gs, 0, (0, 0), (0, 0))
}

/// Whether the address is an IPv4-mapped one (`::ffff:a.b.c.d`).
pub open spec fn is_ipv4_mapped(b: Seq<u8>) -> bool {
    &&& forall|i: int| 0 <= i < 10 ==> b[i] == 0
    &&& b[10] == 255
    &&& b[11] == 255
}

/// RFC 5952 form of the sixteen bytes `b`: IPv4-mapped addresses as
/// `::ffff:` and a dotted quad; otherwise hex groups, with the first longest
/// run of two or more zero groups written as `::`.
pub open spec fn ipv6_text(b: Seq<u8>) -> Seq<char> {
    if is_ipv4_mapped(b) {
        seq![':', ':', 'f', 'f', 'f', 'f', ':'] + ipv4_text(b.subrange(12, 16))
    } else {
        let gs = ipv6_groups(b);
        let (start, len) = longest_zero_run(gs);
        if len > 1 {
            join_hex(gs.subrange(0, start)) + seq![':', ':'] + join_hex(gs.subrange(start + len, 8))
        } else {
            join_hex(gs)
        }
    }
}

/// The one-character string of digit `d`.
fn digit_str(d: u64) -> (r: &'static str)
    requires
        d < 16,
    ensures
        r@ == seq![digit_char(d as int)],
{
    if d == 0 {
        proof { reveal_strlit("0"); }
        "0"
    } else if d == 1 {
        proof { reveal_strlit("1"); }
        "1"
    } else if d == 2 {
        proof { reveal_strlit("2"); }
        "2"
    } else if d == 3 {
        proof { reveal_strlit("3"); }
        "3"
    } else if d == 4 {
        proof { reveal_strlit("4"); }
        "4"
    } else if d == 5 {
        proof { reveal_strlit("5"); }
        "5"
    } else if d == 6 {
        proof { reveal_strlit("6"); }
        "6"
    } else if d == 7 {
        proof { reveal_strlit("7"); }
        "7"
    } else if d == 8 {
        proof { reveal_strlit("8"); }
        "8"
    } else if d == 9 {
        proof { reveal_strlit("9"); }
        "9"
    } else if d == 10 {
        proof { reveal_strlit("a"); }
        "a"
    } else if d == 11 {
        proof { reveal_strlit("b"); }
        "b"
    } else if d == 12 {
        proof { reveal_strlit("c"); }
        "c"
    } else if d == 13 {
        proof { reveal_strlit("d"); }
        "d"
    } else if d == 14 {
        proof { reveal_strlit("e"); }
        "e"
    } else {
        proof { reveal_strlit("f"); }
        "f"
    }
}

/// Appends the decimal form of `n` to `out`.
pub fn append_dec(out: &mut String, n: u64)
    ensures
        final(out)@ == old(out)@ + dec_text(n as nat),
    decreases n,
{
    if n >= 10 {
        append_dec(out, n / 10);
    }
    out.append(digit_str(n % 10));
    proof {
        if n >= 10 {
            assert(dec_text(n as nat) == dec_text((n / 10) as nat).push(digit_char((n % 10) as int)));
        }
    }
}

/// Appends the lower-case hexadecimal form of `n` to `out`.
pub fn append_hex(out: &mut String, n: u64)
    ensures
        final(out)@ == old(out)@ + hex_text(n as nat),
    decreases n,
{
    if n >= 16 {
        append_hex(out, n / 16);
    }
    out.append(digit_str(n % 16));
    proof {
        if n >= 16 {
            assert(hex_text(n as nat) == hex_text((n / 16) as nat).push(digit_char((n % 16) as int)));
        }
    }
}

/// The decimal form of `n`.
pub fn dec_string(n: u64) -> (r: String)
    ensures
        r@ == dec_text(n as nat),
{
    let mut s = String::new();
    append_dec(&mut s, n);
    assert(s@ =~= dec_text(n as nat));
    s
}

/// Appends the dotted-quad form of `b[0..4]` to `out`.
pub fn append_ipv4(out: &mut String, b: &[u8])
    requires
        b@.len() >= 4,
    ensures
        final(out)@ == old(out)@ + ipv4_text(b@),
{
    proof { reveal_strlit("."); }
    let ghost o = out@;
    append_dec(out, b[0] as u64);
    out.append(".");
    append_dec(out, b[1] as u64);
    out.append(".");
    append_dec(out, b[2] as u64);
    out.append(".");
    append_dec(out, b[3] as u64);
    assert(out@ =~= o + ipv4_text(b@));
}

/// The dotted-quad form of `b[0..4]`.
pub fn ipv4_string(b: &[u8]) -> (r: String)
    requires
        b@.len() >= 4,
    ensures
        r@ == ipv4_text(b@),
{
    let mut s = String::new();
    append_ipv4(&mut s, b);
    assert(s@ =~= ipv4_text(b@));
    s
}

/// Appends `gs[from..to]` in hex, colon separated, to `out`.
fn append_groups(out: &mut String, gs: &Vec<u64>, from: usize, to: usize)
    requires
        from <= to <= gs@.len(),
    ensures
        final(out)@ == old(out)@ + join_hex(gs@.subrange(from as int, to as int).map_values(
            |g: u64| g as nat,
        )),
{
    let ghost o = out@;
    let mut i = from;
    while i < to
        invariant
            from <= i <= to <= gs@.len(),
            out@ == o + join_hex(gs@.subrange(from as int, i as int).map_values(|g: u64| g as nat)),
        decreases to - i,
    {
        let ghost prev = gs@.subrange(from as int, i as int).map_values(|g: u64| g as nat);
        let ghost next = gs@.subrange(from as int, i + 1).map_values(|g: u64| g as nat);
        assert(next.drop_last() =~= prev);
        assert(next.last() == gs@[i as int] as nat);
        let ghost before = out@;
        if i > from {
            proof { reveal_strlit(":"); }
            out.append(":");
            assert(out@ =~= before + seq![':']);
        } else {
            assert(prev.len() == 0);
        }
        let ghost mid = out@;
        append_hex(out, gs[i]);
        assert(out@ == mid + hex_text(gs@[i as int] as nat));
        if i > from {
            assert(next.len() > 1);
            assert(join_hex(next) == join_hex(prev) + seq![':'] + hex_text(next.last()));
        } else {
            assert(next.len() == 1);
            assert(join_hex(next) == hex_text(next[0]));
        }
        assert(out@ =~= o + join_hex(next));
        i = i + 1;
    }
}

/// The RFC 5952 form of the sixteen bytes `b`.
pub fn ipv6_string(b: &[u8]) -> (r: String)
    requires
        b@.len() == 16,
    ensures
        r@ == ipv6_text(b@),
{
    let mut mapped = b[10] == 255 && b[11] == 255;
    let mut k: usize = 0;
    while k < 10
        invariant
            k <= 10,
            b@.len() == 16,
            mapped == (b@[10] == 255 && b@[11] == 255 && forall|i: int| 0 <= i < k ==> b@[i] == 0),
        decreases 10 - k,
    {
        if b[k] != 0 {
            mapped = false;
        }
        k = k + 1;
    }
    if mapped {
        proof { reveal_strlit("::ffff:"); }
        let mut s = String::new();
        s.append("::ffff:");
        let tail = &b[12..16];
        append_ipv4(&mut s, tail);
        assert(s@ =~= ipv6_text(b@));
        return s;
    }
    let mut gs: Vec<u64> = Vec::new();
    let mut j: usize = 0;
    while j < 8
        invariant
            j <= 8,
            b@.len() == 16,
            gs@.len() == j,
            forall|i: int| 0 <= i < j ==> #[trigger] gs@[i] == (b@[2 * i] as nat) * 256 + (b@[2 * i + 1] as nat),
        decreases 8 - j,
    {
        gs.push((b[2 * j] as u64) * 256 + (b[2 * j + 1] as u64));
        j = j + 1;
    }
    let ghost groups = ipv6_groups(b@);
    assert(gs@.map_values(|g: u64| g as nat) =~= groups);
    let mut cur_start: usize = 0;
    let mut cur_len: usize = 0;
    let mut best_start: usize = 0;
    let mut best_len: usize = 0;
    let mut i: usize = 0;
    while i < 8
        invariant
            i <= 8,
            gs@.len() == 8,
            gs@.map_values(|g: u64| g as nat) == groups,
            cur_start + cur_len <= i,
            best_start + best_len <= 8,
            zero_run_scan(groups, 0, (0, 0), (0, 0)) == zero_run_scan(
                groups,
                i as int,
                (cur_start as int, cur_len as int),
                (best_start as int, best_len as int),
            ),
        decreases 8 - i,
    {
        assert(groups[i as int] == gs@[i as int] as nat);
        if gs[i] == 0 {
            if cur_len == 0 {
                cur_start = i;
                cur_len = 1;
            } else {
                cur_len = cur_len + 1;
            }
            if cur_len > best_len {
                best_start = cur_start;
                best_len = cur_len;
            }
        } else {
            cur_start = 0;
            cur_len = 0;
        }
        i = i + 1;
    }
    let mut s = String::new();
    if best_len > 1 {
        proof { reveal_strlit("::"); }
        append_groups(&mut s, &gs, 0, best_start);
        s.append("::");
        append_groups(&mut s, &gs, best_start + best_len, 8);
        proof {
            assert(gs@.subrange(0, best_start as int).map_values(|g: u64| g as nat) =~= groups.subrange(
                0,
                best_start as int,
            ));
            assert(gs@.subrange((best_start + best_len) as int, 8).map_values(|g: u64| g as nat)
                =~= groups.subrange((best_start + best_len) as int, 8));
        }
    } else {
        append_groups(&mut s, &gs, 0, 8);
        assert(gs@.subrange(0, 8).map_values(|g: u64| g as nat) =~= groups);
    }
    assert(s@ =~= ipv6_text(b@));
    s
}

} // verus!
