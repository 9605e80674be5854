//! The `mappings` field of a source map: one base-64 VLQ group per location,
//! each coding the location's fields as differences from the location before.

use vstd::prelude::*;
use crate::dwarf::DebugLoc;

verus! {

/// The base-64 digit for `d`, which is below 64.
pub open spec fn base64_digit(d: nat) -> u8 {
    if d < 26 {
        (65 + d) as u8
    } else if d < 52 {
        (97 + d - 26) as u8
    } else if d < 62 {
        (48 + d - 52) as u8
    } else if d == 62 {
        43
    } else {
        47
    }
}

/// The VLQ digits of `u`: five bits per digit, low bits first, with bit 5
/// set on every digit but the last.
pub open spec fn vlq_digits(u: nat) -> Seq<u8>
    decreases u,
{
    if u < 32 {
        seq![base64_digit(u)]
    } else {
        seq![base64_digit(u % 32 + 32)] + vlq_digits(u / 32)
    }
}

/// The VLQ encoding of `v`: its magnitude shifted left by one, with the sign
/// in the lowest bit.
pub open spec fn vlq(v: int) -> Seq<u8> {
    vlq_digits(if v < 0 { (2 * -v + 1) as nat } else { (2 * v) as nat })
}

/// Relies on `vlq::encode`: it appends the base-64 VLQ digits of `value` to
/// the writer, and writing into a `Vec` does not fail.
#[verifier::external_body]
fn vlq_encode(value: i64, out: &mut Vec<u8>)
    requires
        value != i64::MIN,
    ensures
        final(out)@ == old(out)@ + vlq(value as int),
{
    let _ = vlq::encode(value, out);
}

/// Whether a location carries a line and a column, so that it is emitted.
pub open spec fn is_emitted(l: DebugLoc) -> bool {
    l.line != 0 && l.column != 0
}

/// The locations that the source map records, in order.
pub open spec fn emitted(s: Seq<DebugLoc>) -> Seq<DebugLoc>
    decreases s.len(),
{
    if s.len() == 0 {
        s
    } else if is_emitted(s.last()) {
        emitted(s.drop_last()).push(s.last())
    } else {
        emitted(s.drop_last())
    }
}

/// The fields of a location, as integers.
pub open spec fn fields(l: DebugLoc) -> (int, int, int, int) {
    (l.address as int, l.source_id as int, l.line as int, l.column as int)
}

/// The fields that the `i`-th group is relative to: those of the location
/// before it, or `(0, 0, 1, 1)` for the first.
pub open spec fn cursor_before(rows: Seq<DebugLoc>, i: int) -> (int, int, int, int) {
    if i == 0 {
        (0, 0, 1, 1)
    } else {
        fields(rows[i - 1])
    }
}

/// The differences that the `i`-th group codes.
pub open spec fn deltas(rows: Seq<DebugLoc>, i: int) -> (int, int, int, int) {
    let c = cursor_before(rows, i);
    let f = fields(rows[i]);
    (f.0 - c.0, f.1 - c.1, f.2 - c.2, f.3 - c.3)
}

/// The `i`-th group of the mappings.
pub open spec fn segment(rows: Seq<DebugLoc>, i: int) -> Seq<u8> {
    let d = deltas(rows, i);
    vlq(d.0) + vlq(d.1) + vlq(d.2) + vlq(d.3)
}

/// The first `n` groups, separated by commas.
pub open spec fn join_segments(rows: Seq<DebugLoc>, n: nat) -> Seq<u8>
    decreases n,
{
    if n == 0 {
        seq![]
    } else if n == 1 {
        segment(rows, 0)
    } else {
        join_segments(rows, (n - 1) as nat) + seq![44u8] + segment(rows, n - 1)
    }
}

/// The `mappings` of a source map for `locs`.
pub open spec fn mappings(locs: Seq<DebugLoc>) -> Seq<u8> {
    join_segments(emitted(locs), emitted(locs).len())
}

/// Whether every address fits a signed 64-bit difference.
pub open spec fn addresses_fit(locs: Seq<DebugLoc>) -> bool {
    forall|i: int| 0 <= i < locs.len() ==> #[trigger] locs[i].address <= i64::MAX
}

proof fn lemma_emitted_from(s: Seq<DebugLoc>)
    ensures
        forall|i: int| 0 <= i < emitted(s).len() ==> exists|j: int| 0 <= j < s.len() && #[trigger] emitted(s)[i] == s[j],
        forall|i: int| 0 <= i < emitted(s).len() ==> is_emitted(#[trigger] emitted(s)[i]),
    decreases s.len(),
{
    if s.len() > 0 {
        lemma_emitted_from(s.drop_last());
        let e = emitted(s.drop_last());
        assert forall|i: int| 0 <= i < emitted(s).len() implies exists|j: int| 0 <= j < s.len() && #[trigger] emitted(s)[i] == s[j] by {
            if i < e.len() {
                assert(emitted(s)[i] == e[i]);
                let j = choose|j: int| 0 <= j < s.len() - 1 && e[i] == s.drop_last()[j];
                assert(emitted(s)[i] == s[j]);
            } else {
                assert(emitted(s)[i] == s[s.len() - 1]);
            }
        }
        assert forall|i: int| 0 <= i < emitted(s).len() implies is_emitted(#[trigger] emitted(s)[i]) by {
            if i < e.len() {
                assert(emitted(s)[i] == e[i]);
            }
        }
    }
}

/// Whether `locs`' addresses fit a signed 64-bit difference.
pub fn addresses_in_range(locs: &Vec<DebugLoc>) -> (r: bool)
    ensures
        r == addresses_fit(locs@),
{
    let mut i: usize = 0;
    while i < locs.len()
        invariant
            i <= locs@.len(),
            forall|k: int| 0 <= k < i ==> #[trigger] locs@[k].address <= i64::MAX,
        decreases locs.len() - i,
    {
        if locs[i].address > 0x7FFF_FFFF_FFFF_FFFF {
            return false;
        }
        i = i + 1;
    }
    true
}

/// The `mappings` of a source map for `locations`: for each location with a
/// line and a column, in order, the VLQ digits of its address, source, line
/// and column as differences from the location before, groups separated by
/// commas.
pub fn encode_mappings(locations: &Vec<DebugLoc>) -> (r: Vec<u8>)
    requires
        addresses_fit(locations@),
    ensures
        r@ == mappings(locations@),
{
    let mut buffer: Vec<u8> = Vec::new();
    let mut last_address: i64 = 0;
    let mut last_source_id: i64 = 0;
    let mut last_line: i64 = 1;
    let mut last_column: i64 = 1;
    let mut count: usize = 0;
    let mut i: usize = 0;
    proof {
        lemma_emitted_from(locations@.take(0));
    }
    while i < locations.len()
        invariant
            i <= locations@.len(),
            addresses_fit(locations@),
            count == emitted(locations@.take(i as int)).len(),
            count <= i,
            buffer@ == join_segments(emitted(locations@.take(i as int)), count as nat),
            count == 0 ==> (last_address, last_source_id, last_line, last_column) == (0i64, 0i64, 1i64, 1i64),
            count > 0 ==> fields(emitted(locations@.take(i as int))[count - 1]) == (
                last_address as int,
                last_source_id as int,
                last_line as int,
                last_column as int,
            ),
            0 <= last_address <= i64::MAX,
            0 <= last_source_id <= u32::MAX,
            0 <= last_line <= u32::MAX,
            0 <= last_column <= u32::MAX,
        decreases locations.len() - i,
    {
        let loc = locations[i];
        let ghost prev = emitted(locations@.take(i as int));
        assert(locations@.take(i + 1).drop_last() =~= locations@.take(i as int));
        assert(locations@.take(i + 1).last() == loc);
        if loc.line != 0 && loc.column != 0 {
            let ghost rows = prev.push(loc);
            assert(emitted(locations@.take(i + 1)) == rows);
            assert(loc.address <= i64::MAX);
            if count > 0 {
                buffer.push(44u8);
            }
            vlq_encode(loc.address as i64 - last_address, &mut buffer);
            vlq_encode(loc.source_id as i64 - last_source_id, &mut buffer);
            vlq_encode(loc.line as i64 - last_line, &mut buffer);
            vlq_encode(loc.column as i64 - last_column, &mut buffer);
            proof {
                assert(rows.drop_last() =~= prev);
                assert forall|k: nat| k <= count implies join_segments(rows, k) == join_segments(prev, k) by {
                    lemma_join_prefix(prev, loc, k);
                }
                if count > 0 {
                    assert(rows[count - 1] == prev[count - 1]);
                }
                assert(buffer@ =~= join_segments(rows, (count + 1) as nat));
            }
            last_address = loc.address as i64;
            last_source_id = loc.source_id as i64;
            last_line = loc.line as i64;
            last_column = loc.column as i64;
            count = count + 1;
        }
        i = i + 1;
    }
    assert(locations@.take(i as int) =~= locations@);
    buffer
}

proof fn lemma_join_prefix(rows: Seq<DebugLoc>, x: DebugLoc, k: nat)
    requires
        k <= rows.len(),
    ensures
        join_segments(rows.push(x), k) == join_segments(rows, k),
    decreases k,
{
    if k > 1 {
        lemma_join_prefix(rows, x, (k - 1) as nat);
        assert(rows.push(x)[k - 1] == rows[k - 1]);
        if k >= 2 {
            assert(rows.push(x)[k - 2] == rows[k - 2]);
        }
    } else if k == 1 {
        assert(rows.push(x)[0] == rows[0]);
    }
}

/// The value of a base-64 digit; -1 for a byte that is none.
pub open spec fn base64_value(b: u8) -> int {
    if 65 <= b <= 90 {
        b - 65
    } else if 97 <= b <= 122 {
        b - 97 + 26
    } else if 48 <= b <= 57 {
        b - 48 + 52
    } else if b == 43 {
        62
    } else if b == 47 {
        63
    } else {
        -1
    }
}

/// The unsigned VLQ value at the start of `s`, and the number of digits it takes.
pub open spec fn vlq_read_unsigned(s: Seq<u8>) -> (int, int)
    decreases s.len(),
{
    if s.len() == 0 {
        (0, 0)
    } else {
        let d = base64_value(s[0]);
        if d < 32 {
            (d, 1)
        } else {
            let r = vlq_read_unsigned(s.drop_first());
            (d - 32 + 32 * r.0, r.1 + 1)
        }
    }
}

/// The signed VLQ value at the start of `s`, and the number of digits it takes.
pub open spec fn vlq_read(s: Seq<u8>) -> (int, int) {
    let r = vlq_read_unsigned(s);
    (if r.0 % 2 == 1 { -(r.0 / 2) } else { r.0 / 2 }, r.1)
}

/// The four values that a group codes.
pub open spec fn decode_group(g: Seq<u8>) -> (int, int, int, int) {
    let a = vlq_read(g);
    let g1 = g.skip(a.1);
    let b = vlq_read(g1);
    let g2 = g1.skip(b.1);
    let c = vlq_read(g2);
    let g3 = g2.skip(c.1);
    let d = vlq_read(g3);
    (a.0, b.0, c.0, d.0)
}

/// The position of the last comma in `s`, or -1.
pub open spec fn last_comma(s: Seq<u8>) -> int
    decreases s.len(),
{
    if s.len() == 0 {
        -1
    } else if s.last() == 44 {
        s.len() - 1
    } else {
        last_comma(s.drop_last())
    }
}

/// `s` cut at its commas.
pub open spec fn split_groups(s: Seq<u8>) -> Seq<Seq<u8>>
    decreases s.len(),
{
    let i = last_comma(s);
    if i < 0 || i >= s.len() {
        seq![s]
    } else {
        split_groups(s.take(i)).push(s.skip(i + 1))
    }
}

/// The quadruples that groups of differences stand for, starting from
/// `(0, 0, 1, 1)`.
pub open spec fn rebuild(groups: Seq<Seq<u8>>) -> Seq<(int, int, int, int)>
    decreases groups.len(),
{
    if groups.len() == 0 {
        seq![]
    } else {
        let prev = rebuild(groups.drop_last());
        let c = if prev.len() == 0 {
            (0, 0, 1, 1)
        } else {
            prev.last()
        };
        let d = decode_group(groups.last());
        prev.push((c.0 + d.0, c.1 + d.1, c.2 + d.2, c.3 + d.3))
    }
}

/// The (address, source, line, column) quadruples that a `mappings` text codes.
pub open spec fn parse_mappings(s: Seq<u8>) -> Seq<(int, int, int, int)> {
    if s.len() == 0 {
        seq![]
    } else {
        rebuild(split_groups(s))
    }
}

proof fn lemma_vlq_digits(u: nat, rest: Seq<u8>)
    ensures
        vlq_read_unsigned(vlq_digits(u) + rest) == (u as int, vlq_digits(u).len() as int),
        forall|i: int| 0 <= i < vlq_digits(u).len() ==> #[trigger] vlq_digits(u)[i] != 44,
    decreases u,
{
    let s = vlq_digits(u) + rest;
    if u < 32 {
        assert(s[0] == base64_digit(u));
    } else {
        lemma_vlq_digits(u / 32, rest);
        assert(s[0] == base64_digit(u % 32 + 32));
        assert(s.drop_first() =~= vlq_digits(u / 32) + rest);
        assert forall|i: int| 0 <= i < vlq_digits(u).len() implies #[trigger] vlq_digits(u)[i] != 44 by {
            if i > 0 {
                assert(vlq_digits(u)[i] == vlq_digits(u / 32)[i - 1]);
            }
        }
    }
}

proof fn lemma_vlq(v: int, rest: Seq<u8>)
    ensures
        vlq_read(vlq(v) + rest) == (v, vlq(v).len() as int),
        forall|i: int| 0 <= i < vlq(v).len() ==> #[trigger] vlq(v)[i] != 44,
{
    let u: nat = if v < 0 { (2 * -v + 1) as nat } else { (2 * v) as nat };
    lemma_vlq_digits(u, rest);
}

proof fn lemma_decode_segment(rows: Seq<DebugLoc>, i: int)
    requires
        0 <= i < rows.len(),
    ensures
        decode_group(segment(rows, i)) == deltas(rows, i),
        forall|k: int| 0 <= k < segment(rows, i).len() ==> #[trigger] segment(rows, i)[k] != 44,
{
    let d = deltas(rows, i);
    let (a, b, c, e) = (vlq(d.0), vlq(d.1), vlq(d.2), vlq(d.3));
    let g = segment(rows, i);
    assert(g =~= a + (b + c + e));
    lemma_vlq(d.0, b + c + e);
    assert(g.skip(a.len() as int) =~= b + (c + e));
    lemma_vlq(d.1, c + e);
    assert(g.skip(a.len() as int).skip(b.len() as int) =~= c + e);
    lemma_vlq(d.2, e);
    assert(g.skip(a.len() as int).skip(b.len() as int).skip(c.len() as int) =~= e + seq![]);
    lemma_vlq(d.3, seq![]);
    assert forall|k: int| 0 <= k < g.len() implies #[trigger] g[k] != 44 by {
        if k < a.len() {
            assert(g[k] == a[k]);
        } else if k < a.len() + b.len() {
            assert(g[k] == b[k - a.len()]);
        } else if k < a.len() + b.len() + c.len() {
            assert(g[k] == c[k - a.len() - b.len()]);
        } else {
            assert(g[k] == e[k - a.len() - b.len() - c.len()]);
        }
    }
}

proof fn lemma_last_comma(a: Seq<u8>, b: Seq<u8>)
    requires
        forall|k: int| 0 <= k < b.len() ==> #[trigger] b[k] != 44,
    ensures
        last_comma(a + seq![44u8] + b) == a.len(),
        last_comma(b) == -1,
    decreases b.len(),
{
    if b.len() > 0 {
        assert((a + seq![44u8] + b).drop_last() =~= a + seq![44u8] + b.drop_last());
        assert(b.last() != 44);
        lemma_last_comma(a, b.drop_last());
    } else {
        assert(a + seq![44u8] + b =~= a.push(44u8));
    }
}

/// The groups of the first `n` rows.
pub open spec fn segments(rows: Seq<DebugLoc>, n: nat) -> Seq<Seq<u8>> {
    Seq::new(n, |i: int| segment(rows, i))
}

proof fn lemma_split_join(rows: Seq<DebugLoc>, n: nat)
    requires
        1 <= n <= rows.len(),
    ensures
        split_groups(join_segments(rows, n)) == segments(rows, n),
    decreases n,
{
    lemma_decode_segment(rows, n - 1);
    let g = segment(rows, n - 1);
    if n == 1 {
        lemma_last_comma(seq![], g);
        assert(split_groups(g) =~= segments(rows, 1));
    } else {
        let j = join_segments(rows, (n - 1) as nat);
        let s = join_segments(rows, n);
        lemma_last_comma(j, g);
        assert(s.take(j.len() as int) =~= j);
        assert(s.skip(j.len() as int + 1) =~= g);
        lemma_split_join(rows, (n - 1) as nat);
        assert(segments(rows, (n - 1) as nat).push(g) =~= segments(rows, n));
    }
}

proof fn lemma_rebuild(rows: Seq<DebugLoc>, n: nat)
    requires
        n <= rows.len(),
    ensures
        rebuild(segments(rows, n)) == rows.take(n as int).map_values(|l: DebugLoc| fields(l)),
    decreases n,
{
    if n > 0 {
        lemma_rebuild(rows, (n - 1) as nat);
        lemma_decode_segment(rows, n - 1);
        assert(segments(rows, n).drop_last() =~= segments(rows, (n - 1) as nat));
        assert(rows.take(n as int).map_values(|l: DebugLoc| fields(l))
            =~= rows.take(n - 1).map_values(|l: DebugLoc| fields(l)).push(fields(rows[n - 1])));
    } else {
        assert(rows.take(0).map_values(|l: DebugLoc| fields(l)) =~= seq![]);
    }
}

/// Decoding the `mappings` of a list of locations gives back, in order, the
/// address, source, line and column of each location that has a line and a
/// column.
pub proof fn lemma_mappings_round_trip(locs: Seq<DebugLoc>)
    ensures
        parse_mappings(mappings(locs)) == emitted(locs).map_values(|l: DebugLoc| fields(l)),
{
    let rows = emitted(locs);
    let n = rows.len();
    if n == 0 {
        assert(rows.map_values(|l: DebugLoc| fields(l)) =~= seq![]);
    } else {
        lemma_decode_segment(rows, 0);
        assert(join_segments(rows, n).len() > 0) by {
            if n > 1 {
                assert(join_segments(rows, n) == join_segments(rows, (n - 1) as nat) + seq![44u8] + segment(rows, n - 1));
            } else {
                let d = deltas(rows, 0);
                lemma_vlq_len(d.0);
            }
        }
        lemma_split_join(rows, n);
        lemma_rebuild(rows, n);
        assert(rows.take(n as int) =~= rows);
    }
}

proof fn lemma_vlq_len(v: int)
    ensures
        vlq(v).len() >= 1,
{
    let u: nat = if v < 0 { (2 * -v + 1) as nat } else { (2 * v) as nat };
    reveal_with_fuel(vlq_digits, 2);
}

} // verus!
