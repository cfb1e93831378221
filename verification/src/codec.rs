use vstd::prelude::*;

use crate::serialization::{SerializableLevel, SerializableTile};

verus! {

// The persisted document is a single structure with one list field,
//     (tiles:[(pos:(x:1,y:2),id:5,flip:(x:true,y:false,d:false)),...])
// written without whitespace, each entry followed by a comma, numbers in
// plain decimal without leading zeros, and the flip group omitted when every
// flag is off. The writer emits exactly this form and the reader accepts
// exactly this form, so a parsed document re-encodes byte for byte.

pub open spec fn spec_is_digit(c: u8) -> bool {
    48 <= c <= 57
}

/// The decimal digits of `n`, most significant first.
pub open spec fn spec_dec(n: nat) -> Seq<u8>
    decreases n,
{
    if n < 10 {
        seq![(48 + n) as u8]
    } else {
        spec_dec(n / 10).push((48 + n % 10) as u8)
    }
}

/// The value a run of digit bytes denotes.
pub open spec fn spec_fold_digits(s: Seq<u8>) -> nat
    decreases s.len(),
{
    if s.len() == 0 {
        0
    } else {
        spec_fold_digits(s.drop_last()) * 10 + (s.last() - 48) as nat
    }
}

pub open spec fn pow10(k: nat) -> nat
    decreases k,
{
    if k == 0 {
        1
    } else {
        10 * pow10((k - 1) as nat)
    }
}

pub open spec fn spec_enc_bool(b: bool) -> Seq<u8> {
    if b {
        seq![116u8, 114u8, 117u8, 101u8]
    } else {
        seq![102u8, 97u8, 108u8, 115u8, 101u8]
    }
}

pub open spec fn lit_header() -> Seq<u8> {
    seq![40u8, 116u8, 105u8, 108u8, 101u8, 115u8, 58u8, 91u8]
}

pub open spec fn lit_footer() -> Seq<u8> {
    seq![93u8, 41u8]
}

pub open spec fn lit_pos_open() -> Seq<u8> {
    seq![40u8, 112u8, 111u8, 115u8, 58u8, 40u8, 120u8, 58u8]
}

pub open spec fn lit_comma_y() -> Seq<u8> {
    seq![44u8, 121u8, 58u8]
}

pub open spec fn lit_id() -> Seq<u8> {
    seq![41u8, 44u8, 105u8, 100u8, 58u8]
}

pub open spec fn lit_flip_open() -> Seq<u8> {
    seq![44u8, 102u8, 108u8, 105u8, 112u8, 58u8, 40u8, 120u8, 58u8]
}

pub open spec fn lit_comma_d() -> Seq<u8> {
    seq![44u8, 100u8, 58u8]
}

pub open spec fn lit_close_flip() -> Seq<u8> {
    seq![41u8, 41u8, 44u8]
}

pub open spec fn lit_close() -> Seq<u8> {
    seq![41u8, 44u8]
}

/// The encoding of one snapshot entry, comma-terminated; the flip group is
/// present exactly when some flag is on.
pub open spec fn spec_enc_tile(t: SerializableTile) -> Seq<u8> {
    let head = lit_pos_open() + spec_dec(t.pos.x as nat) + lit_comma_y() + spec_dec(t.pos.y as nat)
        + lit_id() + spec_dec(t.id as nat);
    if t.flip.is_default() {
        head + lit_close()
    } else {
        head + lit_flip_open() + spec_enc_bool(t.flip.x) + lit_comma_y() + spec_enc_bool(t.flip.y)
            + lit_comma_d() + spec_enc_bool(t.flip.d) + lit_close_flip()
    }
}

/// The concatenated encodings of a run of entries.
pub open spec fn spec_enc_tiles(ts: Seq<SerializableTile>) -> Seq<u8>
    decreases ts.len(),
{
    if ts.len() == 0 {
        Seq::empty()
    } else {
        spec_enc_tile(ts[0]) + spec_enc_tiles(ts.drop_first())
    }
}

/// The encoding of a whole snapshot document.
pub open spec fn spec_enc_level(ts: Seq<SerializableTile>) -> Seq<u8> {
    lit_header() + spec_enc_tiles(ts) + lit_footer()
}

/// Appending an entry appends its encoding.
pub proof fn lemma_enc_tiles_push(ts: Seq<SerializableTile>, t: SerializableTile)
    ensures
        spec_enc_tiles(ts.push(t)) == spec_enc_tiles(ts) + spec_enc_tile(t),
    decreases ts.len(),
{
    if ts.len() == 0 {
        assert(ts.push(t).drop_first() =~= Seq::<SerializableTile>::empty());
        assert(ts.push(t)[0] == t);
        assert(spec_enc_tiles(ts.push(t)) == spec_enc_tile(ts.push(t)[0]) + spec_enc_tiles(
            ts.push(t).drop_first(),
        ));
        assert(spec_enc_tile(t) + Seq::<u8>::empty() =~= spec_enc_tile(t));
        assert(Seq::<u8>::empty() + spec_enc_tile(t) =~= spec_enc_tile(t));
    } else {
        assert(ts.push(t).drop_first() =~= ts.drop_first().push(t));
        lemma_enc_tiles_push(ts.drop_first(), t);
        assert(ts.push(t)[0] == ts[0]);
        assert(spec_enc_tiles(ts.push(t)) == spec_enc_tile(ts.push(t)[0]) + spec_enc_tiles(
            ts.push(t).drop_first(),
        ));
        assert(spec_enc_tiles(ts.push(t)) == spec_enc_tile(ts[0]) + (spec_enc_tiles(ts.drop_first())
            + spec_enc_tile(t)));
        assert(spec_enc_tile(ts[0]) + (spec_enc_tiles(ts.drop_first()) + spec_enc_tile(t)) =~= (
        spec_enc_tile(ts[0]) + spec_enc_tiles(ts.drop_first())) + spec_enc_tile(t));
    }
}

/// Every byte of a decimal rendering is a digit, it is never empty, and its
/// first digit is zero only for the value zero.
pub proof fn lemma_dec_shape(n: nat)
    ensures
        spec_dec(n).len() >= 1,
        forall|k: int| 0 <= k < spec_dec(n).len() ==> spec_is_digit(#[trigger] spec_dec(n)[k]),
        n > 0 ==> spec_dec(n)[0] != 48,
        n < 10 ==> spec_dec(n).len() == 1,
    decreases n,
{
    if n >= 10 {
        lemma_dec_shape(n / 10);
        assert(n / 10 >= 1) by (nonlinear_arith)
            requires
                n >= 10,
        ;
        assert(n % 10 < 10) by (nonlinear_arith);
        assert forall|k: int| 0 <= k < spec_dec(n).len() implies spec_is_digit(
            #[trigger] spec_dec(n)[k],
        ) by {
            if k < spec_dec(n).len() - 1 {
                assert(spec_dec(n)[k] == spec_dec(n / 10)[k]);
            }
        }
    }
}

/// A value below `pow10(k)` renders in at most `k` digits.
pub proof fn lemma_dec_len(n: nat, k: nat)
    requires
        k >= 1,
        n < pow10(k),
    ensures
        spec_dec(n).len() <= k,
    decreases k,
{
    if n >= 10 {
        if k == 1 {
            assert(pow10(1) == 10 * pow10(0));
            assert(pow10(0) == 1);
            assert(false);
        }
        assert(pow10(k) == 10 * pow10((k - 1) as nat));
        assert(n / 10 < pow10((k - 1) as nat)) by (nonlinear_arith)
            requires
                n < 10 * pow10((k - 1) as nat),
                n >= 10,
        ;
        lemma_dec_len(n / 10, (k - 1) as nat);
    }
}

/// Reading back the digits of a rendering gives the value.
pub proof fn lemma_dec_fold(n: nat)
    ensures
        spec_fold_digits(spec_dec(n)) == n,
    decreases n,
{
    if n < 10 {
        assert(spec_dec(n).drop_last() =~= Seq::<u8>::empty());
        assert(spec_fold_digits(Seq::<u8>::empty()) == 0);
        assert(spec_dec(n).last() == (48 + n) as u8);
        assert(spec_fold_digits(spec_dec(n)) == spec_fold_digits(spec_dec(n).drop_last()) * 10 + (
        spec_dec(n).last() - 48) as nat);
    } else {
        lemma_dec_fold(n / 10);
        assert(spec_dec(n).drop_last() =~= spec_dec(n / 10));
        assert(n % 10 < 10) by (nonlinear_arith);
        assert(spec_dec(n).last() == (48 + n % 10) as u8);
        assert((spec_dec(n).last() - 48) as nat == n % 10);
        assert(n / 10 * 10 + n % 10 == n) by (nonlinear_arith);
    }
}

/// A nonempty digit run with a nonzero first digit denotes a positive value.
pub proof fn lemma_fold_pos(s: Seq<u8>)
    requires
        s.len() >= 1,
        forall|k: int| 0 <= k < s.len() ==> spec_is_digit(#[trigger] s[k]),
        s[0] != 48,
    ensures
        spec_fold_digits(s) >= 1,
    decreases s.len(),
{
    if s.len() == 1 {
        assert(s.drop_last() =~= Seq::empty());
    } else {
        let front = s.drop_last();
        assert(front[0] == s[0]);
        lemma_fold_pos(front);
    }
}

/// Rendering the value of a canonical digit run gives the run back: digits
/// only, and no leading zero unless the run is just "0".
pub proof fn lemma_fold_dec(s: Seq<u8>)
    requires
        s.len() >= 1,
        forall|k: int| 0 <= k < s.len() ==> spec_is_digit(#[trigger] s[k]),
        s[0] != 48 || s.len() == 1,
    ensures
        spec_dec(spec_fold_digits(s)) == s,
    decreases s.len(),
{
    if s.len() == 1 {
        assert(s.drop_last() =~= Seq::<u8>::empty());
        assert(spec_fold_digits(Seq::<u8>::empty()) == 0);
        assert(s.last() == s[0]);
        assert(spec_fold_digits(s) == spec_fold_digits(s.drop_last()) * 10 + (s.last() - 48) as nat);
        assert(spec_fold_digits(s) == (s[0] - 48) as nat);
        assert(spec_dec((s[0] - 48) as nat) =~= s);
    } else {
        let front = s.drop_last();
        assert(front[0] == s[0]);
        lemma_fold_dec(front);
        lemma_fold_pos(front);
        let f = spec_fold_digits(front);
        let v = spec_fold_digits(s);
        assert(v == f * 10 + (s.last() - 48));
        assert(v >= 10) by (nonlinear_arith)
            requires
                f >= 1,
                v == f * 10 + (s.last() - 48),
                s.last() >= 48,
        ;
        vstd::arithmetic::div_mod::lemma_fundamental_div_mod_converse(
            v as int,
            10,
            f as int,
            (s.last() - 48) as int,
        );
        assert(spec_dec(v) == spec_dec(f).push((48 + v % 10) as u8));
        assert((48 + v % 10) as u8 == s.last());
        assert(spec_dec(f).push(s.last()) =~= s);
    }
}

/// Writes the canonical document for a snapshot.
pub fn encode_level(level: &SerializableLevel) -> (r: Vec<u8>)
    ensures
        r@ == spec_enc_level(level.tiles@),
{
    let mut out: Vec<u8> = Vec::new();
    out.push(40u8);
    out.push(116u8);
    out.push(105u8);
    out.push(108u8);
    out.push(101u8);
    out.push(115u8);
    out.push(58u8);
    out.push(91u8);
    proof {
        assert(out@ =~= lit_header() + spec_enc_tiles(level.tiles@.take(0)));
    }
    let n = level.tiles.len();
    let mut j: usize = 0;
    while j < n
        invariant
            n == level.tiles@.len(),
            j <= n,
            out@ == lit_header() + spec_enc_tiles(level.tiles@.take(j as int)),
        decreases n - j,
    {
        let t = level.tiles[j];
        let ghost before = out@;
        encode_tile(&mut out, &t);
        proof {
            assert(level.tiles@.take(j + 1 as int).drop_last() =~= level.tiles@.take(j as int));
            lemma_enc_tiles_push(level.tiles@.take(j as int), t);
            assert(level.tiles@.take(j as int).push(t) =~= level.tiles@.take(j + 1 as int));
            assert(out@ =~= lit_header() + spec_enc_tiles(level.tiles@.take(j + 1 as int)));
        }
        j = j + 1;
    }
    out.push(93u8);
    out.push(41u8);
    proof {
        assert(level.tiles@.take(n as int) =~= level.tiles@);
        assert(out@ =~= spec_enc_level(level.tiles@));
    }
    out
}

/// Appends one entry's encoding.
#[verifier::spinoff_prover]
#[verifier::rlimit(100)]
fn encode_tile(out: &mut Vec<u8>, t: &SerializableTile)
    ensures
        final(out)@ == old(out)@ + spec_enc_tile(*t),
{
    push_pos_open(out);
    encode_u32(out, t.pos.x);
    push_comma_y(out);
    encode_u32(out, t.pos.y);
    push_id(out);
    encode_u32(out, t.id);
    if t.flip.x || t.flip.y || t.flip.d {
        push_flip_open(out);
        encode_bool(out, t.flip.x);
        push_comma_y(out);
        encode_bool(out, t.flip.y);
        push_comma_d(out);
        encode_bool(out, t.flip.d);
        push_close_flip(out);
        proof {
            assert(out@ =~= old(out)@ + spec_enc_tile(*t));
        }
    } else {
        push_close(out);
        proof {
            assert(out@ =~= old(out)@ + spec_enc_tile(*t));
        }
    }
}

fn push_pos_open(out: &mut Vec<u8>)
    ensures
        final(out)@ == old(out)@ + lit_pos_open(),
{
    out.push(40u8);
    out.push(112u8);
    out.push(111u8);
    out.push(115u8);
    out.push(58u8);
    out.push(40u8);
    out.push(120u8);
    out.push(58u8);
    proof {
        assert(out@ =~= old(out)@ + lit_pos_open());
    }
}

fn push_comma_y(out: &mut Vec<u8>)
    ensures
        final(out)@ == old(out)@ + lit_comma_y(),
{
    out.push(44u8);
    out.push(121u8);
    out.push(58u8);
    proof {
        assert(out@ =~= old(out)@ + lit_comma_y());
    }
}

fn push_id(out: &mut Vec<u8>)
    ensures
        final(out)@ == old(out)@ + lit_id(),
{
    out.push(41u8);
    out.push(44u8);
    out.push(105u8);
    out.push(100u8);
    out.push(58u8);
    proof {
        assert(out@ =~= old(out)@ + lit_id());
    }
}

fn push_flip_open(out: &mut Vec<u8>)
    ensures
        final(out)@ == old(out)@ + lit_flip_open(),
{
    out.push(44u8);
    out.push(102u8);
    out.push(108u8);
    out.push(105u8);
    out.push(112u8);
    out.push(58u8);
    out.push(40u8);
    out.push(120u8);
    out.push(58u8);
    proof {
        assert(out@ =~= old(out)@ + lit_flip_open());
    }
}

fn push_comma_d(out: &mut Vec<u8>)
    ensures
        final(out)@ == old(out)@ + lit_comma_d(),
{
    out.push(44u8);
    out.push(100u8);
    out.push(58u8);
    proof {
        assert(out@ =~= old(out)@ + lit_comma_d());
    }
}

fn push_close_flip(out: &mut Vec<u8>)
    ensures
        final(out)@ == old(out)@ + lit_close_flip(),
{
    out.push(41u8);
    out.push(41u8);
    out.push(44u8);
    proof {
        assert(out@ =~= old(out)@ + lit_close_flip());
    }
}

fn push_close(out: &mut Vec<u8>)
    ensures
        final(out)@ == old(out)@ + lit_close(),
{
    out.push(41u8);
    out.push(44u8);
    proof {
        assert(out@ =~= old(out)@ + lit_close());
    }
}

/// Appends `true` or `false`.
fn encode_bool(out: &mut Vec<u8>, b: bool)
    ensures
        final(out)@ == old(out)@ + spec_enc_bool(b),
{
    if b {
        out.push(116u8);
        out.push(114u8);
        out.push(117u8);
        out.push(101u8);
    } else {
        out.push(102u8);
        out.push(97u8);
        out.push(108u8);
        out.push(115u8);
        out.push(101u8);
    }
    proof {
        assert(out@ =~= old(out)@ + spec_enc_bool(b));
    }
}

/// Appends the decimal digits of `v`.
fn encode_u32(out: &mut Vec<u8>, v: u32)
    ensures
        final(out)@ == old(out)@ + spec_dec(v as nat),
    decreases v,
{
    if v < 10 {
        out.push(48 + (v as u8));
        proof {
            assert(out@ =~= old(out)@ + spec_dec(v as nat));
        }
    } else {
        encode_u32(out, v / 10);
        out.push(48 + ((v % 10) as u8));
        proof {
            assert(v as nat / 10 == (v / 10) as nat);
            assert(out@ =~= old(out)@ + spec_dec(v as nat));
        }
    }
}

/// Ten powers of ten, spelled out.
pub proof fn lemma_pow10_10()
    ensures
        pow10(10) == 10000000000,
{
    assert(pow10(0) == 1);
    assert(pow10(1) == 10 * pow10(0));
    assert(pow10(2) == 10 * pow10(1));
    assert(pow10(3) == 10 * pow10(2));
    assert(pow10(4) == 10 * pow10(3));
    assert(pow10(5) == 10 * pow10(4));
    assert(pow10(6) == 10 * pow10(5));
    assert(pow10(7) == 10 * pow10(6));
    assert(pow10(8) == 10 * pow10(7));
    assert(pow10(9) == 10 * pow10(8));
    assert(pow10(10) == 10 * pow10(9));
}

/// Powers of ten grow with the exponent.
pub proof fn lemma_pow10_mono(a: nat, b: nat)
    requires
        a <= b,
    ensures
        pow10(a) <= pow10(b),
    decreases b,
{
    if a < b {
        lemma_pow10_mono(a, (b - 1) as nat);
        assert(pow10(b) == 10 * pow10((b - 1) as nat));
        assert(10 * pow10((b - 1) as nat) >= pow10((b - 1) as nat)) by (nonlinear_arith)
            requires
                pow10((b - 1) as nat) >= 0,
        ;
    }
}

/// The bytes at `i` spell exactly the decimal rendering of `v`, ended by the
/// document or a non-digit.
pub open spec fn num_at(s: Seq<u8>, i: int, v: u32) -> bool {
    &&& 0 <= i
    &&& i + spec_dec(v as nat).len() <= s.len()
    &&& s.subrange(i, i + spec_dec(v as nat).len()) == spec_dec(v as nat)
    &&& (i + spec_dec(v as nat).len() == s.len() || !spec_is_digit(
        s[i + spec_dec(v as nat).len()],
    ))
}

/// The bytes at `i` spell `true` or `false`.
pub open spec fn bool_at(s: Seq<u8>, i: int, b: bool) -> bool {
    &&& 0 <= i
    &&& i + spec_enc_bool(b).len() <= s.len()
    &&& s.subrange(i, i + spec_enc_bool(b).len()) == spec_enc_bool(b)
}

/// The bytes at `i` spell exactly one entry's encoding.
pub open spec fn tile_at(s: Seq<u8>, i: int, t: SerializableTile) -> bool {
    &&& 0 <= i
    &&& i + spec_enc_tile(t).len() <= s.len()
    &&& s.subrange(i, i + spec_enc_tile(t).len()) == spec_enc_tile(t)
}

/// Reads the byte `c` at `i`, advancing past it.
fn expect_byte(s: &Vec<u8>, i: usize, c: u8) -> (r: Option<usize>)
    ensures
        r matches Some(j) ==> i < s@.len() && s@[i as int] == c && j == i + 1,
        (i < s@.len() && s@[i as int] == c) ==> r is Some,
{
    if i < s.len() && s[i] == c {
        Some(i + 1)
    } else {
        None
    }
}

/// Reads a decimal number: the maximal digit run at `i`, rejected when it is
/// empty, has a leading zero, or does not fit `u32`. Exactly the runs the
/// writer emits are accepted.
#[verifier::spinoff_prover]
#[verifier::rlimit(100)]
fn parse_u32(s: &Vec<u8>, i: usize) -> (r: Option<(u32, usize)>)
    requires
        i <= s@.len(),
    ensures
        r matches Some(p) ==> num_at(s@, i as int, p.0) && p.1 == i + spec_dec(p.0 as nat).len(),
        forall|v: u32|
            #[trigger] num_at(s@, i as int, v) ==> (r matches Some(p) && p.0 == v),
{
    let n = s.len();
    let mut end: usize = i;
    while end < n && 48 <= s[end] && s[end] <= 57
        invariant
            i <= end <= n,
            n == s@.len(),
            forall|k: int| i <= k < end ==> spec_is_digit(#[trigger] s@[k]),
        decreases n - end,
    {
        end = end + 1;
    }
    proof {
        assert(end == s@.len() || !spec_is_digit(s@[end as int]));
    }
    if end == i {
        proof {
            assert forall|v: u32| !num_at(s@, i as int, v) by {
                lemma_dec_shape(v as nat);
                if num_at(s@, i as int, v) {
                    assert(s@[i as int] == spec_dec(v as nat)[0]);
                }
            }
        }
        return None;
    }
    if s[i] == 48 && end > i + 1 {
        proof {
            assert forall|v: u32| !num_at(s@, i as int, v) by {
                lemma_dec_shape(v as nat);
                if num_at(s@, i as int, v) {
                    assert(s@[i as int] == spec_dec(v as nat)[0]);
                    assert(v == 0);
                    assert(spec_dec(0nat).len() == 1);
                    assert(spec_is_digit(s@[i + 1 as int]));
                }
            }
        }
        return None;
    }
    let ghost run = s@.subrange(i as int, end as int);
    proof {
        assert forall|v: u32| num_at(s@, i as int, v) implies spec_dec(v as nat) =~= run by {
            lemma_dec_shape(v as nat);
            let dl = spec_dec(v as nat).len() as int;
            if i + dl < end {
                assert(spec_is_digit(s@[i + dl]));
                assert(false);
            }
            if i + dl > end {
                assert(spec_dec(v as nat)[end - i] == s@[end as int]);
                assert(spec_is_digit(spec_dec(v as nat)[end - i]));
                assert(false);
            }
            assert forall|k: int| 0 <= k < dl implies spec_dec(v as nat)[k] == run[k] by {
                assert(spec_dec(v as nat)[k] == s@.subrange(i as int, i + dl)[k]);
            }
        }
    }
    if end - i > 10 {
        proof {
            assert forall|v: u32| !num_at(s@, i as int, v) by {
                if num_at(s@, i as int, v) {
                    assert(pow10(10) == 10 * pow10(9));
                    assert(pow10(9) == 10 * pow10(8));
                    assert(pow10(8) == 10 * pow10(7));
                    assert(pow10(7) == 10 * pow10(6));
                    assert(pow10(6) == 10 * pow10(5));
                    assert(pow10(5) == 10 * pow10(4));
                    assert(pow10(4) == 10 * pow10(3));
                    assert(pow10(3) == 10 * pow10(2));
                    assert(pow10(2) == 10 * pow10(1));
                    assert(pow10(1) == 10 * pow10(0));
                    assert(pow10(0) == 1);
                    assert(v < 4294967296);
                    assert((v as nat) < pow10(10));
                    lemma_dec_len(v as nat, 10);
                    assert(spec_dec(v as nat) =~= run);
                    assert(run.len() > 10);
                    assert(false);
                }
            }
        }
        return None;
    }
    proof {
        lemma_pow10_10();
        assert(s@.subrange(i as int, i as int) =~= Seq::<u8>::empty());
    }
    let mut acc: u64 = 0;
    let mut k: usize = i;
    while k < end
        invariant
            i <= k <= end <= s@.len(),
            end - i <= 10,
            forall|kk: int| i <= kk < end ==> spec_is_digit(#[trigger] s@[kk]),
            acc == spec_fold_digits(s@.subrange(i as int, k as int)),
            acc < pow10((k - i) as nat),
            pow10((k - i) as nat) <= pow10(10nat),
            pow10(10nat) == 10000000000,
        decreases end - k,
    {
        let d = s[k] - 48;
        proof {
            let sub1 = s@.subrange(i as int, k + 1 as int);
            assert(sub1.drop_last() =~= s@.subrange(i as int, k as int));
            assert(sub1.last() == s@[k as int]);
            assert(pow10(((k + 1) - i) as nat) == 10 * pow10((k - i) as nat));
            assert(acc * 10 + d < 10 * pow10((k - i) as nat)) by (nonlinear_arith)
                requires
                    acc < pow10((k - i) as nat),
                    d < 10,
            ;
            lemma_pow10_mono(((k + 1) - i) as nat, 10);
        }
        acc = acc * 10 + (d as u64);
        k = k + 1;
    }
    proof {
        assert(s@.subrange(i as int, end as int) =~= run);
        assert(acc == spec_fold_digits(run));
    }
    if acc > 0xFFFF_FFFF {
        proof {
            assert forall|v: u32| !num_at(s@, i as int, v) by {
                if num_at(s@, i as int, v) {
                    assert(spec_dec(v as nat) =~= run);
                    lemma_dec_fold(v as nat);
                    assert(spec_fold_digits(run) == v as nat);
                    assert(false);
                }
            }
        }
        return None;
    }
    proof {
        lemma_fold_dec(run);
        assert(spec_dec(acc as nat) == run);
        assert(s@.subrange(i as int, i + spec_dec(acc as nat).len()) =~= run);
        assert forall|v: u32| num_at(s@, i as int, v) implies v == acc by {
            assert(spec_dec(v as nat) =~= run);
            lemma_dec_fold(v as nat);
        }
    }
    Some((acc as u32, end))
}

/// Reads `true` or `false` at `i`.
fn parse_bool(s: &Vec<u8>, i: usize) -> (r: Option<(bool, usize)>)
    requires
        i <= s@.len(),
    ensures
        r matches Some(p) ==> bool_at(s@, i as int, p.0) && p.1 == i + spec_enc_bool(p.0).len(),
        forall|b: bool|
            #[trigger] bool_at(s@, i as int, b) ==> (r matches Some(p) && p.0 == b),
{
    if i < s.len() && s[i] == 116 {
        let j1 = match expect_byte(s, i, 116) {
            Some(j) => j,
            None => {
                return None;
            },
        };
        let j2 = match expect_byte(s, j1, 114) {
            Some(j) => j,
            None => {
                return None;
            },
        };
        let j3 = match expect_byte(s, j2, 117) {
            Some(j) => j,
            None => {
                return None;
            },
        };
        let j4 = match expect_byte(s, j3, 101) {
            Some(j) => j,
            None => {
                return None;
            },
        };
        proof {
            assert(s@.subrange(i as int, i + 4) =~= spec_enc_bool(true));
            assert forall|b: bool| #[trigger] bool_at(s@, i as int, b) implies b == true by {
                if !b {
                    assert(s@[i as int] == spec_enc_bool(false)[0]);
                }
            }
        }
        Some((true, j4))
    } else if i < s.len() && s[i] == 102 {
        let j1 = match expect_byte(s, i, 102) {
            Some(j) => j,
            None => {
                return None;
            },
        };
        let j2 = match expect_byte(s, j1, 97) {
            Some(j) => j,
            None => {
                return None;
            },
        };
        let j3 = match expect_byte(s, j2, 108) {
            Some(j) => j,
            None => {
                return None;
            },
        };
        let j4 = match expect_byte(s, j3, 115) {
            Some(j) => j,
            None => {
                return None;
            },
        };
        let j5 = match expect_byte(s, j4, 101) {
            Some(j) => j,
            None => {
                return None;
            },
        };
        proof {
            assert(s@.subrange(i as int, i + 5) =~= spec_enc_bool(false));
            assert forall|b: bool| #[trigger] bool_at(s@, i as int, b) implies b == false by {
                if b {
                    assert(s@[i as int] == spec_enc_bool(true)[0]);
                }
            }
        }
        Some((false, j5))
    } else {
        proof {
            assert forall|b: bool| !bool_at(s@, i as int, b) by {
                if bool_at(s@, i as int, b) {
                    assert(s@[i as int] == spec_enc_bool(b)[0]);
                }
            }
        }
        None
    }
}

/// Reads the fixed text `lit_pos_open` at `i`.
fn expect_pos_open(s: &Vec<u8>, i: usize) -> (r: Option<usize>)
    requires
        i <= s@.len(),
    ensures
        r matches Some(j) ==> j == i + 8 && i + 8 <= s@.len() && s@.subrange(i as int, i + 8)
            == lit_pos_open(),
        (i + 8 <= s@.len() && s@.subrange(i as int, i + 8) == lit_pos_open()) ==> (r matches Some(j) && j
            == i + 8),
{
    let j1 = match expect_byte(s, i, 40) {
        Some(j) => j,
        None => {
            proof {
                if i + 8 <= s@.len() && s@.subrange(i as int, i + 8) == lit_pos_open() {
                    assert(s@.subrange(i as int, i + 8)[0] == s@[i + 0]);
                    assert(s@[i + 0] == lit_pos_open()[0]);
                }
            }
            return None;
        },
    };
    let j2 = match expect_byte(s, j1, 112) {
        Some(j) => j,
        None => {
            proof {
                if i + 8 <= s@.len() && s@.subrange(i as int, i + 8) == lit_pos_open() {
                    assert(s@.subrange(i as int, i + 8)[1] == s@[i + 1]);
                    assert(s@[i + 1] == lit_pos_open()[1]);
                }
            }
            return None;
        },
    };
    let j3 = match expect_byte(s, j2, 111) {
        Some(j) => j,
        None => {
            proof {
                if i + 8 <= s@.len() && s@.subrange(i as int, i + 8) == lit_pos_open() {
                    assert(s@.subrange(i as int, i + 8)[2] == s@[i + 2]);
                    assert(s@[i + 2] == lit_pos_open()[2]);
                }
            }
            return None;
        },
    };
    let j4 = match expect_byte(s, j3, 115) {
        Some(j) => j,
        None => {
            proof {
                if i + 8 <= s@.len() && s@.subrange(i as int, i + 8) == lit_pos_open() {
                    assert(s@.subrange(i as int, i + 8)[3] == s@[i + 3]);
                    assert(s@[i + 3] == lit_pos_open()[3]);
                }
            }
            return None;
        },
    };
    let j5 = match expect_byte(s, j4, 58) {
        Some(j) => j,
        None => {
            proof {
                if i + 8 <= s@.len() && s@.subrange(i as int, i + 8) == lit_pos_open() {
                    assert(s@.subrange(i as int, i + 8)[4] == s@[i + 4]);
                    assert(s@[i + 4] == lit_pos_open()[4]);
                }
            }
            return None;
        },
    };
    let j6 = match expect_byte(s, j5, 40) {
        Some(j) => j,
        None => {
            proof {
                if i + 8 <= s@.len() && s@.subrange(i as int, i + 8) == lit_pos_open() {
                    assert(s@.subrange(i as int, i + 8)[5] == s@[i + 5]);
                    assert(s@[i + 5] == lit_pos_open()[5]);
                }
            }
            return None;
        },
    };
    let j7 = match expect_byte(s, j6, 120) {
        Some(j) => j,
        None => {
            proof {
                if i + 8 <= s@.len() && s@.subrange(i as int, i + 8) == lit_pos_open() {
                    assert(s@.subrange(i as int, i + 8)[6] == s@[i + 6]);
                    assert(s@[i + 6] == lit_pos_open()[6]);
                }
            }
            return None;
        },
    };
    let j8 = match expect_byte(s, j7, 58) {
        Some(j) => j,
        None => {
            proof {
                if i + 8 <= s@.len() && s@.subrange(i as int, i + 8) == lit_pos_open() {
                    assert(s@.subrange(i as int, i + 8)[7] == s@[i + 7]);
                    assert(s@[i + 7] == lit_pos_open()[7]);
                }
            }
            return None;
        },
    };
    proof {
        assert(s@.subrange(i as int, i + 8) =~= lit_pos_open());
    }
    Some(j8)
}

/// Reads the fixed text `lit_comma_y` at `i`.
fn expect_comma_y(s: &Vec<u8>, i: usize) -> (r: Option<usize>)
    requires
        i <= s@.len(),
    ensures
        r matches Some(j) ==> j == i + 3 && i + 3 <= s@.len() && s@.subrange(i as int, i + 3)
            == lit_comma_y(),
        (i + 3 <= s@.len() && s@.subrange(i as int, i + 3) == lit_comma_y()) ==> (r matches Some(j) && j
            == i + 3),
{
    let j1 = match expect_byte(s, i, 44) {
        Some(j) => j,
        None => {
            proof {
                if i + 3 <= s@.len() && s@.subrange(i as int, i + 3) == lit_comma_y() {
                    assert(s@.subrange(i as int, i + 3)[0] == s@[i + 0]);
                    assert(s@[i + 0] == lit_comma_y()[0]);
                }
            }
            return None;
        },
    };
    let j2 = match expect_byte(s, j1, 121) {
        Some(j) => j,
        None => {
            proof {
                if i + 3 <= s@.len() && s@.subrange(i as int, i + 3) == lit_comma_y() {
                    assert(s@.subrange(i as int, i + 3)[1] == s@[i + 1]);
                    assert(s@[i + 1] == lit_comma_y()[1]);
                }
            }
            return None;
        },
    };
    let j3 = match expect_byte(s, j2, 58) {
        Some(j) => j,
        None => {
            proof {
                if i + 3 <= s@.len() && s@.subrange(i as int, i + 3) == lit_comma_y() {
                    assert(s@.subrange(i as int, i + 3)[2] == s@[i + 2]);
                    assert(s@[i + 2] == lit_comma_y()[2]);
                }
            }
            return None;
        },
    };
    proof {
        assert(s@.subrange(i as int, i + 3) =~= lit_comma_y());
    }
    Some(j3)
}

/// Reads the fixed text `lit_id` at `i`.
fn expect_id(s: &Vec<u8>, i: usize) -> (r: Option<usize>)
    requires
        i <= s@.len(),
    ensures
        r matches Some(j) ==> j == i + 5 && i + 5 <= s@.len() && s@.subrange(i as int, i + 5)
            == lit_id(),
        (i + 5 <= s@.len() && s@.subrange(i as int, i + 5) == lit_id()) ==> (r matches Some(j) && j
            == i + 5),
{
    let j1 = match expect_byte(s, i, 41) {
        Some(j) => j,
        None => {
            proof {
                if i + 5 <= s@.len() && s@.subrange(i as int, i + 5) == lit_id() {
                    assert(s@.subrange(i as int, i + 5)[0] == s@[i + 0]);
                    assert(s@[i + 0] == lit_id()[0]);
                }
            }
            return None;
        },
    };
    let j2 = match expect_byte(s, j1, 44) {
        Some(j) => j,
        None => {
            proof {
                if i + 5 <= s@.len() && s@.subrange(i as int, i + 5) == lit_id() {
                    assert(s@.subrange(i as int, i + 5)[1] == s@[i + 1]);
                    assert(s@[i + 1] == lit_id()[1]);
                }
            }
            return None;
        },
    };
    let j3 = match expect_byte(s, j2, 105) {
        Some(j) => j,
        None => {
            proof {
                if i + 5 <= s@.len() && s@.subrange(i as int, i + 5) == lit_id() {
                    assert(s@.subrange(i as int, i + 5)[2] == s@[i + 2]);
                    assert(s@[i + 2] == lit_id()[2]);
                }
            }
            return None;
        },
    };
    let j4 = match expect_byte(s, j3, 100) {
        Some(j) => j,
        None => {
            proof {
                if i + 5 <= s@.len() && s@.subrange(i as int, i + 5) == lit_id() {
                    assert(s@.subrange(i as int, i + 5)[3] == s@[i + 3]);
                    assert(s@[i + 3] == lit_id()[3]);
                }
            }
            return None;
        },
    };
    let j5 = match expect_byte(s, j4, 58) {
        Some(j) => j,
        None => {
            proof {
                if i + 5 <= s@.len() && s@.subrange(i as int, i + 5) == lit_id() {
                    assert(s@.subrange(i as int, i + 5)[4] == s@[i + 4]);
                    assert(s@[i + 4] == lit_id()[4]);
                }
            }
            return None;
        },
    };
    proof {
        assert(s@.subrange(i as int, i + 5) =~= lit_id());
    }
    Some(j5)
}

/// Reads the fixed text `lit_flip_open` at `i`.
fn expect_flip_open(s: &Vec<u8>, i: usize) -> (r: Option<usize>)
    requires
        i <= s@.len(),
    ensures
        r matches Some(j) ==> j == i + 9 && i + 9 <= s@.len() && s@.subrange(i as int, i + 9)
            == lit_flip_open(),
        (i + 9 <= s@.len() && s@.subrange(i as int, i + 9) == lit_flip_open()) ==> (r matches Some(j) && j
            == i + 9),
{
    let j1 = match expect_byte(s, i, 44) {
        Some(j) => j,
        None => {
            proof {
                if i + 9 <= s@.len() && s@.subrange(i as int, i + 9) == lit_flip_open() {
                    assert(s@.subrange(i as int, i + 9)[0] == s@[i + 0]);
                    assert(s@[i + 0] == lit_flip_open()[0]);
                }
            }
            return None;
        },
    };
    let j2 = match expect_byte(s, j1, 102) {
        Some(j) => j,
        None => {
            proof {
                if i + 9 <= s@.len() && s@.subrange(i as int, i + 9) == lit_flip_open() {
                    assert(s@.subrange(i as int, i + 9)[1] == s@[i + 1]);
                    assert(s@[i + 1] == lit_flip_open()[1]);
                }
            }
            return None;
        },
    };
    let j3 = match expect_byte(s, j2, 108) {
        Some(j) => j,
        None => {
            proof {
                if i + 9 <= s@.len() && s@.subrange(i as int, i + 9) == lit_flip_open() {
                    assert(s@.subrange(i as int, i + 9)[2] == s@[i + 2]);
                    assert(s@[i + 2] == lit_flip_open()[2]);
                }
            }
            return None;
        },
    };
    let j4 = match expect_byte(s, j3, 105) {
        Some(j) => j,
        None => {
            proof {
                if i + 9 <= s@.len() && s@.subrange(i as int, i + 9) == lit_flip_open() {
                    assert(s@.subrange(i as int, i + 9)[3] == s@[i + 3]);
                    assert(s@[i + 3] == lit_flip_open()[3]);
                }
            }
            return None;
        },
    };
    let j5 = match expect_byte(s, j4, 112) {
        Some(j) => j,
        None => {
            proof {
                if i + 9 <= s@.len() && s@.subrange(i as int, i + 9) == lit_flip_open() {
                    assert(s@.subrange(i as int, i + 9)[4] == s@[i + 4]);
                    assert(s@[i + 4] == lit_flip_open()[4]);
                }
            }
            return None;
        },
    };
    let j6 = match expect_byte(s, j5, 58) {
        Some(j) => j,
        None => {
            proof {
                if i + 9 <= s@.len() && s@.subrange(i as int, i + 9) == lit_flip_open() {
                    assert(s@.subrange(i as int, i + 9)[5] == s@[i + 5]);
                    assert(s@[i + 5] == lit_flip_open()[5]);
                }
            }
            return None;
        },
    };
    let j7 = match expect_byte(s, j6, 40) {
        Some(j) => j,
        None => {
            proof {
                if i + 9 <= s@.len() && s@.subrange(i as int, i + 9) == lit_flip_open() {
                    assert(s@.subrange(i as int, i + 9)[6] == s@[i + 6]);
                    assert(s@[i + 6] == lit_flip_open()[6]);
                }
            }
            return None;
        },
    };
    let j8 = match expect_byte(s, j7, 120) {
        Some(j) => j,
        None => {
            proof {
                if i + 9 <= s@.len() && s@.subrange(i as int, i + 9) == lit_flip_open() {
                    assert(s@.subrange(i as int, i + 9)[7] == s@[i + 7]);
                    assert(s@[i + 7] == lit_flip_open()[7]);
                }
            }
            return None;
        },
    };
    let j9 = match expect_byte(s, j8, 58) {
        Some(j) => j,
        None => {
            proof {
                if i + 9 <= s@.len() && s@.subrange(i as int, i + 9) == lit_flip_open() {
                    assert(s@.subrange(i as int, i + 9)[8] == s@[i + 8]);
                    assert(s@[i + 8] == lit_flip_open()[8]);
                }
            }
            return None;
        },
    };
    proof {
        assert(s@.subrange(i as int, i + 9) =~= lit_flip_open());
    }
    Some(j9)
}

/// Reads the fixed text `lit_comma_d` at `i`.
fn expect_comma_d(s: &Vec<u8>, i: usize) -> (r: Option<usize>)
    requires
        i <= s@.len(),
    ensures
        r matches Some(j) ==> j == i + 3 && i + 3 <= s@.len() && s@.subrange(i as int, i + 3)
            == lit_comma_d(),
        (i + 3 <= s@.len() && s@.subrange(i as int, i + 3) == lit_comma_d()) ==> (r matches Some(j) && j
            == i + 3),
{
    let j1 = match expect_byte(s, i, 44) {
        Some(j) => j,
        None => {
            proof {
                if i + 3 <= s@.len() && s@.subrange(i as int, i + 3) == lit_comma_d() {
                    assert(s@.subrange(i as int, i + 3)[0] == s@[i + 0]);
                    assert(s@[i + 0] == lit_comma_d()[0]);
                }
            }
            return None;
        },
    };
    let j2 = match expect_byte(s, j1, 100) {
        Some(j) => j,
        None => {
            proof {
                if i + 3 <= s@.len() && s@.subrange(i as int, i + 3) == lit_comma_d() {
                    assert(s@.subrange(i as int, i + 3)[1] == s@[i + 1]);
                    assert(s@[i + 1] == lit_comma_d()[1]);
                }
            }
            return None;
        },
    };
    let j3 = match expect_byte(s, j2, 58) {
        Some(j) => j,
        None => {
            proof {
                if i + 3 <= s@.len() && s@.subrange(i as int, i + 3) == lit_comma_d() {
                    assert(s@.subrange(i as int, i + 3)[2] == s@[i + 2]);
                    assert(s@[i + 2] == lit_comma_d()[2]);
                }
            }
            return None;
        },
    };
    proof {
        assert(s@.subrange(i as int, i + 3) =~= lit_comma_d());
    }
    Some(j3)
}

/// Reads the fixed text `lit_close_flip` at `i`.
fn expect_close_flip(s: &Vec<u8>, i: usize) -> (r: Option<usize>)
    requires
        i <= s@.len(),
    ensures
        r matches Some(j) ==> j == i + 3 && i + 3 <= s@.len() && s@.subrange(i as int, i + 3)
            == lit_close_flip(),
        (i + 3 <= s@.len() && s@.subrange(i as int, i + 3) == lit_close_flip()) ==> (r matches Some(j) && j
            == i + 3),
{
    let j1 = match expect_byte(s, i, 41) {
        Some(j) => j,
        None => {
            proof {
                if i + 3 <= s@.len() && s@.subrange(i as int, i + 3) == lit_close_flip() {
                    assert(s@.subrange(i as int, i + 3)[0] == s@[i + 0]);
                    assert(s@[i + 0] == lit_close_flip()[0]);
                }
            }
            return None;
        },
    };
    let j2 = match expect_byte(s, j1, 41) {
        Some(j) => j,
        None => {
            proof {
                if i + 3 <= s@.len() && s@.subrange(i as int, i + 3) == lit_close_flip() {
                    assert(s@.subrange(i as int, i + 3)[1] == s@[i + 1]);
                    assert(s@[i + 1] == lit_close_flip()[1]);
                }
            }
            return None;
        },
    };
    let j3 = match expect_byte(s, j2, 44) {
        Some(j) => j,
        None => {
            proof {
                if i + 3 <= s@.len() && s@.subrange(i as int, i + 3) == lit_close_flip() {
                    assert(s@.subrange(i as int, i + 3)[2] == s@[i + 2]);
                    assert(s@[i + 2] == lit_close_flip()[2]);
                }
            }
            return None;
        },
    };
    proof {
        assert(s@.subrange(i as int, i + 3) =~= lit_close_flip());
    }
    Some(j3)
}

/// Reads the fixed text `lit_close` at `i`.
fn expect_close(s: &Vec<u8>, i: usize) -> (r: Option<usize>)
    requires
        i <= s@.len(),
    ensures
        r matches Some(j) ==> j == i + 2 && i + 2 <= s@.len() && s@.subrange(i as int, i + 2)
            == lit_close(),
        (i + 2 <= s@.len() && s@.subrange(i as int, i + 2) == lit_close()) ==> (r matches Some(j) && j
            == i + 2),
{
    let j1 = match expect_byte(s, i, 41) {
        Some(j) => j,
        None => {
            proof {
                if i + 2 <= s@.len() && s@.subrange(i as int, i + 2) == lit_close() {
                    assert(s@.subrange(i as int, i + 2)[0] == s@[i + 0]);
                    assert(s@[i + 0] == lit_close()[0]);
                }
            }
            return None;
        },
    };
    let j2 = match expect_byte(s, j1, 44) {
        Some(j) => j,
        None => {
            proof {
                if i + 2 <= s@.len() && s@.subrange(i as int, i + 2) == lit_close() {
                    assert(s@.subrange(i as int, i + 2)[1] == s@[i + 1]);
                    assert(s@[i + 1] == lit_close()[1]);
                }
            }
            return None;
        },
    };
    proof {
        assert(s@.subrange(i as int, i + 2) =~= lit_close());
    }
    Some(j2)
}

/// Reads the fixed text `lit_header` at `i`.
fn expect_header(s: &Vec<u8>, i: usize) -> (r: Option<usize>)
    requires
        i <= s@.len(),
    ensures
        r matches Some(j) ==> j == i + 8 && i + 8 <= s@.len() && s@.subrange(i as int, i + 8)
            == lit_header(),
        (i + 8 <= s@.len() && s@.subrange(i as int, i + 8) == lit_header()) ==> (r matches Some(j) && j
            == i + 8),
{
    let j1 = match expect_byte(s, i, 40) {
        Some(j) => j,
        None => {
            proof {
                if i + 8 <= s@.len() && s@.subrange(i as int, i + 8) == lit_header() {
                    assert(s@.subrange(i as int, i + 8)[0] == s@[i + 0]);
                    assert(s@[i + 0] == lit_header()[0]);
                }
            }
            return None;
        },
    };
    let j2 = match expect_byte(s, j1, 116) {
        Some(j) => j,
        None => {
            proof {
                if i + 8 <= s@.len() && s@.subrange(i as int, i + 8) == lit_header() {
                    assert(s@.subrange(i as int, i + 8)[1] == s@[i + 1]);
                    assert(s@[i + 1] == lit_header()[1]);
                }
            }
            return None;
        },
    };
    let j3 = match expect_byte(s, j2, 105) {
        Some(j) => j,
        None => {
            proof {
                if i + 8 <= s@.len() && s@.subrange(i as int, i + 8) == lit_header() {
                    assert(s@.subrange(i as int, i + 8)[2] == s@[i + 2]);
                    assert(s@[i + 2] == lit_header()[2]);
                }
            }
            return None;
        },
    };
    let j4 = match expect_byte(s, j3, 108) {
        Some(j) => j,
        None => {
            proof {
                if i + 8 <= s@.len() && s@.subrange(i as int, i + 8) == lit_header() {
                    assert(s@.subrange(i as int, i + 8)[3] == s@[i + 3]);
                    assert(s@[i + 3] == lit_header()[3]);
                }
            }
            return None;
        },
    };
    let j5 = match expect_byte(s, j4, 101) {
        Some(j) => j,
        None => {
            proof {
                if i + 8 <= s@.len() && s@.subrange(i as int, i + 8) == lit_header() {
                    assert(s@.subrange(i as int, i + 8)[4] == s@[i + 4]);
                    assert(s@[i + 4] == lit_header()[4]);
                }
            }
            return None;
        },
    };
    let j6 = match expect_byte(s, j5, 115) {
        Some(j) => j,
        None => {
            proof {
                if i + 8 <= s@.len() && s@.subrange(i as int, i + 8) == lit_header() {
                    assert(s@.subrange(i as int, i + 8)[5] == s@[i + 5]);
                    assert(s@[i + 5] == lit_header()[5]);
                }
            }
            return None;
        },
    };
    let j7 = match expect_byte(s, j6, 58) {
        Some(j) => j,
        None => {
            proof {
                if i + 8 <= s@.len() && s@.subrange(i as int, i + 8) == lit_header() {
                    assert(s@.subrange(i as int, i + 8)[6] == s@[i + 6]);
                    assert(s@[i + 6] == lit_header()[6]);
                }
            }
            return None;
        },
    };
    let j8 = match expect_byte(s, j7, 91) {
        Some(j) => j,
        None => {
            proof {
                if i + 8 <= s@.len() && s@.subrange(i as int, i + 8) == lit_header() {
                    assert(s@.subrange(i as int, i + 8)[7] == s@[i + 7]);
                    assert(s@[i + 7] == lit_header()[7]);
                }
            }
            return None;
        },
    };
    proof {
        assert(s@.subrange(i as int, i + 8) =~= lit_header());
    }
    Some(j8)
}

/// A window into an enclosing match: if `s` carries `e` at `i`, it carries
/// every piece of `e` at the corresponding offset.
proof fn lemma_sub_at(s: Seq<u8>, i: int, e: Seq<u8>, o: int, l: int)
    requires
        0 <= i,
        i + e.len() <= s.len(),
        s.subrange(i, i + e.len()) == e,
        0 <= o,
        0 <= l,
        o + l <= e.len(),
    ensures
        s.subrange(i + o, i + o + l) == e.subrange(o, o + l),
{
    assert forall|k: int| 0 <= k < l implies #[trigger] s.subrange(i + o, i + o + l)[k]
        == e.subrange(o, o + l)[k] by {
        assert(e[o + k] == s.subrange(i, i + e.len())[o + k]);
    }
    assert(s.subrange(i + o, i + o + l) =~= e.subrange(o, o + l));
}

/// Where each component of an entry's encoding sits in the surrounding
/// bytes: the fixed texts, the three numbers with their non-digit
/// terminators, and the flip group when it is present.
#[verifier::spinoff_prover]
#[verifier::rlimit(100)]
proof fn lemma_tile_components(s: Seq<u8>, i: int, t: SerializableTile)
    requires
        tile_at(s, i, t),
    ensures
        ({
            let d1 = spec_dec(t.pos.x as nat).len() as int;
            let d2 = spec_dec(t.pos.y as nat).len() as int;
            let d3 = spec_dec(t.id as nat).len() as int;
            let o2 = i + 8 + d1;
            let o3 = o2 + 3;
            let o4 = o3 + d2;
            let o5 = o4 + 5;
            let o6 = o5 + d3;
            &&& i + 8 <= s.len() && s.subrange(i, i + 8) == lit_pos_open()
            &&& num_at(s, i + 8, t.pos.x)
            &&& o2 + 3 <= s.len() && s.subrange(o2, o2 + 3) == lit_comma_y()
            &&& num_at(s, o3, t.pos.y)
            &&& o4 + 5 <= s.len() && s.subrange(o4, o4 + 5) == lit_id()
            &&& num_at(s, o5, t.id)
            &&& (t.flip.is_default() ==> o6 + 2 <= s.len() && s.subrange(o6, o6 + 2)
                == lit_close() && i + spec_enc_tile(t).len() == o6 + 2)
            &&& (!t.flip.is_default() ==> {
                let b1 = spec_enc_bool(t.flip.x).len() as int;
                let b2 = spec_enc_bool(t.flip.y).len() as int;
                let b3 = spec_enc_bool(t.flip.d).len() as int;
                let f1 = o6 + 9;
                let f2 = f1 + b1;
                let f3 = f2 + 3;
                let f4 = f3 + b2;
                let f5 = f4 + 3;
                let f6 = f5 + b3;
                &&& o6 + 9 <= s.len() && s.subrange(o6, o6 + 9) == lit_flip_open()
                &&& bool_at(s, f1, t.flip.x)
                &&& f2 + 3 <= s.len() && s.subrange(f2, f2 + 3) == lit_comma_y()
                &&& bool_at(s, f3, t.flip.y)
                &&& f4 + 3 <= s.len() && s.subrange(f4, f4 + 3) == lit_comma_d()
                &&& bool_at(s, f5, t.flip.d)
                &&& f6 + 3 <= s.len() && s.subrange(f6, f6 + 3) == lit_close_flip()
                &&& i + spec_enc_tile(t).len() == f6 + 3
            })
        }),
{
    let e = spec_enc_tile(t);
    let dd1 = spec_dec(t.pos.x as nat);
    let dd2 = spec_dec(t.pos.y as nat);
    let dd3 = spec_dec(t.id as nat);
    let d1 = dd1.len() as int;
    let d2 = dd2.len() as int;
    let d3 = dd3.len() as int;
    let o2 = 8 + d1;
    let o3 = o2 + 3;
    let o4 = o3 + d2;
    let o5 = o4 + 5;
    let o6 = o5 + d3;
    let head = lit_pos_open() + dd1 + lit_comma_y() + dd2 + lit_id() + dd3;
    assert(e.subrange(0, 8) =~= lit_pos_open());
    assert(e.subrange(8, o2) =~= dd1);
    assert(e.subrange(o2, o3) =~= lit_comma_y());
    assert(e.subrange(o3, o4) =~= dd2);
    assert(e.subrange(o4, o5) =~= lit_id());
    assert(e.subrange(o5, o6) =~= dd3);
    lemma_sub_at(s, i, e, 0, 8);
    lemma_sub_at(s, i, e, 8, d1);
    lemma_sub_at(s, i, e, o2, 3);
    lemma_sub_at(s, i, e, o3, d2);
    lemma_sub_at(s, i, e, o4, 5);
    lemma_sub_at(s, i, e, o5, d3);
    assert(s.subrange(i + o2, i + o2 + 3)[0] == s[i + o2]);
    assert(s[i + o2] == 44);
    assert(num_at(s, i + 8, t.pos.x));
    assert(s.subrange(i + o4, i + o4 + 5)[0] == s[i + o4]);
    assert(s[i + o4] == 41);
    assert(num_at(s, i + o3, t.pos.y));
    if t.flip.is_default() {
        assert(e.subrange(o6, o6 + 2) =~= lit_close());
        lemma_sub_at(s, i, e, o6, 2);
        assert(s.subrange(i + o6, i + o6 + 2)[0] == s[i + o6]);
        assert(s[i + o6] == 41);
        assert(num_at(s, i + o5, t.id));
    } else {
        let b1 = spec_enc_bool(t.flip.x).len() as int;
        let b2 = spec_enc_bool(t.flip.y).len() as int;
        let b3 = spec_enc_bool(t.flip.d).len() as int;
        let f1 = o6 + 9;
        let f2 = f1 + b1;
        let f3 = f2 + 3;
        let f4 = f3 + b2;
        let f5 = f4 + 3;
        let f6 = f5 + b3;
        assert(e.subrange(o6, f1) =~= lit_flip_open());
        assert(e.subrange(f1, f2) =~= spec_enc_bool(t.flip.x));
        assert(e.subrange(f2, f3) =~= lit_comma_y());
        assert(e.subrange(f3, f4) =~= spec_enc_bool(t.flip.y));
        assert(e.subrange(f4, f5) =~= lit_comma_d());
        assert(e.subrange(f5, f6) =~= spec_enc_bool(t.flip.d));
        assert(e.subrange(f6, f6 + 3) =~= lit_close_flip());
        lemma_sub_at(s, i, e, o6, 9);
        lemma_sub_at(s, i, e, f1, b1);
        lemma_sub_at(s, i, e, f2, 3);
        lemma_sub_at(s, i, e, f3, b2);
        lemma_sub_at(s, i, e, f4, 3);
        lemma_sub_at(s, i, e, f5, b3);
        lemma_sub_at(s, i, e, f6, 3);
        assert(s.subrange(i + o6, i + o6 + 9)[0] == s[i + o6]);
        assert(s[i + o6] == 44);
        assert(num_at(s, i + o5, t.id));
    }
}
/// The opening of an entry's encoding: coordinate and id, before any flip
/// group.
pub open spec fn head_enc(x: u32, y: u32, id: u32) -> Seq<u8> {
    lit_pos_open() + spec_dec(x as nat) + lit_comma_y() + spec_dec(y as nat) + lit_id() + spec_dec(
        id as nat,
    )
}

/// Reads an entry's coordinate and id.
#[verifier::spinoff_prover]
#[verifier::rlimit(100)]
fn parse_tile_head(s: &Vec<u8>, i: usize) -> (r: Option<((u32, u32, u32), usize)>)
    requires
        i <= s@.len(),
    ensures
        r matches Some(p) ==> p.1 == i + head_enc(p.0.0, p.0.1, p.0.2).len() && p.1 <= s@.len()
            && s@.subrange(i as int, p.1 as int) == head_enc(p.0.0, p.0.1, p.0.2) && (p.1
            == s@.len() || !spec_is_digit(s@[p.1 as int])),
        forall|t: SerializableTile|
            #[trigger] tile_at(s@, i as int, t) ==> (r matches Some(p) && p.0.0 == t.pos.x && p.0.1
                == t.pos.y && p.0.2 == t.id && p.1 == i + head_enc(t.pos.x, t.pos.y, t.id).len()),
{
    let j0 = match expect_pos_open(s, i) {
        Some(j) => j,
        None => {
            proof {
                assert forall|t: SerializableTile| !tile_at(s@, i as int, t) by {
                    if tile_at(s@, i as int, t) {
                        lemma_tile_components(s@, i as int, t);
                    }
                }
            }
            return None;
        },
    };
    let (vx, j1) = match parse_u32(s, j0) {
        Some(p) => p,
        None => {
            proof {
                assert forall|t: SerializableTile| !tile_at(s@, i as int, t) by {
                    if tile_at(s@, i as int, t) {
                        lemma_tile_components(s@, i as int, t);
                    }
                }
            }
            return None;
        },
    };
    let j2 = match expect_comma_y(s, j1) {
        Some(j) => j,
        None => {
            proof {
                assert forall|t: SerializableTile| !tile_at(s@, i as int, t) by {
                    if tile_at(s@, i as int, t) {
                        lemma_tile_components(s@, i as int, t);
                    }
                }
            }
            return None;
        },
    };
    let (vy, j3) = match parse_u32(s, j2) {
        Some(p) => p,
        None => {
            proof {
                assert forall|t: SerializableTile| !tile_at(s@, i as int, t) by {
                    if tile_at(s@, i as int, t) {
                        lemma_tile_components(s@, i as int, t);
                    }
                }
            }
            return None;
        },
    };
    let j4 = match expect_id(s, j3) {
        Some(j) => j,
        None => {
            proof {
                assert forall|t: SerializableTile| !tile_at(s@, i as int, t) by {
                    if tile_at(s@, i as int, t) {
                        lemma_tile_components(s@, i as int, t);
                    }
                }
            }
            return None;
        },
    };
    let (vid, j5) = match parse_u32(s, j4) {
        Some(p) => p,
        None => {
            proof {
                assert forall|t: SerializableTile| !tile_at(s@, i as int, t) by {
                    if tile_at(s@, i as int, t) {
                        lemma_tile_components(s@, i as int, t);
                    }
                }
            }
            return None;
        },
    };
    proof {
        assert(s@.subrange(i as int, j1 as int) =~= s@.subrange(i as int, j0 as int) + s@.subrange(
            j0 as int,
            j1 as int,
        ));
        assert(s@.subrange(i as int, j2 as int) =~= s@.subrange(i as int, j1 as int) + s@.subrange(
            j1 as int,
            j2 as int,
        ));
        assert(s@.subrange(i as int, j3 as int) =~= s@.subrange(i as int, j2 as int) + s@.subrange(
            j2 as int,
            j3 as int,
        ));
        assert(s@.subrange(i as int, j4 as int) =~= s@.subrange(i as int, j3 as int) + s@.subrange(
            j3 as int,
            j4 as int,
        ));
        assert(s@.subrange(i as int, j5 as int) =~= s@.subrange(i as int, j4 as int) + s@.subrange(
            j4 as int,
            j5 as int,
        ));
        assert(s@.subrange(i as int, j5 as int) == head_enc(vx, vy, vid));
        assert forall|t: SerializableTile| #[trigger] tile_at(s@, i as int, t) implies t.pos.x
            == vx && t.pos.y == vy && t.id == vid && i + head_enc(t.pos.x, t.pos.y, t.id).len()
            == j5 by {
            lemma_tile_components(s@, i as int, t);
        }
    }
    Some(((vx, vy, vid), j5))
}

/// The closing of an entry's encoding: either the plain close after the id,
/// or the written-out flip group, and the trailing comma.
pub open spec fn flip_enc(f: crate::tile::TileFlip) -> Seq<u8> {
    if f.is_default() {
        lit_close()
    } else {
        lit_flip_open() + spec_enc_bool(f.x) + lit_comma_y() + spec_enc_bool(f.y) + lit_comma_d()
            + spec_enc_bool(f.d) + lit_close_flip()
    }
}

/// The bytes at `i` spell exactly an entry's closing for the flags `f`.
pub open spec fn flip_at(s: Seq<u8>, i: int, f: crate::tile::TileFlip) -> bool {
    &&& 0 <= i
    &&& i + flip_enc(f).len() <= s.len()
    &&& s.subrange(i, i + flip_enc(f).len()) == flip_enc(f)
}

/// An entry's encoding is its opening followed by its closing.
pub proof fn lemma_enc_tile_split(t: SerializableTile)
    ensures
        spec_enc_tile(t) == head_enc(t.pos.x, t.pos.y, t.id) + flip_enc(t.flip),
{
    assert(spec_enc_tile(t) =~= head_enc(t.pos.x, t.pos.y, t.id) + flip_enc(t.flip));
}

/// Where each piece of an entry's closing sits in the surrounding bytes.
#[verifier::spinoff_prover]
#[verifier::rlimit(100)]
proof fn lemma_flip_components(s: Seq<u8>, i: int, f: crate::tile::TileFlip)
    requires
        flip_at(s, i, f),
    ensures
        f.is_default() ==> i + 2 <= s.len() && s.subrange(i, i + 2) == lit_close(),
        !f.is_default() ==> ({
            let b1 = spec_enc_bool(f.x).len() as int;
            let b2 = spec_enc_bool(f.y).len() as int;
            let f1 = i + 9;
            let f2 = f1 + b1;
            let f3 = f2 + 3;
            let f4 = f3 + b2;
            let f5 = f4 + 3;
            let f6 = f5 + spec_enc_bool(f.d).len() as int;
            &&& i + 9 <= s.len() && s.subrange(i, i + 9) == lit_flip_open()
            &&& bool_at(s, f1, f.x)
            &&& f2 + 3 <= s.len() && s.subrange(f2, f2 + 3) == lit_comma_y()
            &&& bool_at(s, f3, f.y)
            &&& f4 + 3 <= s.len() && s.subrange(f4, f4 + 3) == lit_comma_d()
            &&& bool_at(s, f5, f.d)
            &&& f6 + 3 <= s.len() && s.subrange(f6, f6 + 3) == lit_close_flip()
            &&& i + flip_enc(f).len() == f6 + 3
        }),
{
    let e = flip_enc(f);
    if f.is_default() {
        lemma_sub_at(s, i, e, 0, 2);
        assert(e.subrange(0, 2) =~= lit_close());
    } else {
        let b1 = spec_enc_bool(f.x).len() as int;
        let b2 = spec_enc_bool(f.y).len() as int;
        let b3 = spec_enc_bool(f.d).len() as int;
        let f2 = 9 + b1;
        let f3 = f2 + 3;
        let f4 = f3 + b2;
        let f5 = f4 + 3;
        let f6 = f5 + b3;
        assert(e.subrange(0, 9) =~= lit_flip_open());
        assert(e.subrange(9, f2) =~= spec_enc_bool(f.x));
        assert(e.subrange(f2, f3) =~= lit_comma_y());
        assert(e.subrange(f3, f4) =~= spec_enc_bool(f.y));
        assert(e.subrange(f4, f5) =~= lit_comma_d());
        assert(e.subrange(f5, f6) =~= spec_enc_bool(f.d));
        assert(e.subrange(f6, f6 + 3) =~= lit_close_flip());
        lemma_sub_at(s, i, e, 0, 9);
        lemma_sub_at(s, i, e, 9, b1);
        lemma_sub_at(s, i, e, f2, 3);
        lemma_sub_at(s, i, e, f3, b2);
        lemma_sub_at(s, i, e, f4, 3);
        lemma_sub_at(s, i, e, f5, b3);
        lemma_sub_at(s, i, e, f6, 3);
    }
}

/// The shape facts of every possible flip group at `i`, quantified, so a
/// parser can refer to them at each of its exits.
proof fn lemma_flip_group_shape(s: Seq<u8>, i: int)
    ensures
        forall|f: crate::tile::TileFlip|
            (#[trigger] flip_at(s, i, f) && !f.is_default()) ==> ({
                let b1 = spec_enc_bool(f.x).len() as int;
                let b2 = spec_enc_bool(f.y).len() as int;
                let f1 = i + 9;
                let f2 = f1 + b1;
                let f3 = f2 + 3;
                let f4 = f3 + b2;
                let f5 = f4 + 3;
                let f6 = f5 + spec_enc_bool(f.d).len() as int;
                &&& i + 9 <= s.len() && s.subrange(i, i + 9) == lit_flip_open()
                &&& bool_at(s, f1, f.x)
                &&& f2 + 3 <= s.len() && s.subrange(f2, f2 + 3) == lit_comma_y()
                &&& bool_at(s, f3, f.y)
                &&& f4 + 3 <= s.len() && s.subrange(f4, f4 + 3) == lit_comma_d()
                &&& bool_at(s, f5, f.d)
                &&& f6 + 3 <= s.len() && s.subrange(f6, f6 + 3) == lit_close_flip()
                &&& i + flip_enc(f).len() == f6 + 3
            }),
{
    assert forall|f: crate::tile::TileFlip|
        (#[trigger] flip_at(s, i, f) && !f.is_default()) implies ({
        let b1 = spec_enc_bool(f.x).len() as int;
        let b2 = spec_enc_bool(f.y).len() as int;
        let f1 = i + 9;
        let f2 = f1 + b1;
        let f3 = f2 + 3;
        let f4 = f3 + b2;
        let f5 = f4 + 3;
        let f6 = f5 + spec_enc_bool(f.d).len() as int;
        &&& i + 9 <= s.len() && s.subrange(i, i + 9) == lit_flip_open()
        &&& bool_at(s, f1, f.x)
        &&& f2 + 3 <= s.len() && s.subrange(f2, f2 + 3) == lit_comma_y()
        &&& bool_at(s, f3, f.y)
        &&& f4 + 3 <= s.len() && s.subrange(f4, f4 + 3) == lit_comma_d()
        &&& bool_at(s, f5, f.d)
        &&& f6 + 3 <= s.len() && s.subrange(f6, f6 + 3) == lit_close_flip()
        &&& i + flip_enc(f).len() == f6 + 3
    }) by {
        lemma_flip_components(s, i, f);
    }
}

/// Reads a written-out flip group at `i`; one with every flag off is
/// rejected as non-canonical.
#[verifier::spinoff_prover]
#[verifier::rlimit(100)]
fn parse_flip_group(s: &Vec<u8>, i: usize) -> (r: Option<(crate::tile::TileFlip, usize)>)
    requires
        i <= s@.len(),
    ensures
        r matches Some(p) ==> flip_at(s@, i as int, p.0) && !p.0.is_default() && p.1 == i
            + flip_enc(p.0).len(),
        forall|f: crate::tile::TileFlip|
            (#[trigger] flip_at(s@, i as int, f) && !f.is_default()) ==> (r matches Some(p) && p.0
                == f),
{
    proof {
        lemma_flip_group_shape(s@, i as int);
    }
    let j1 = match expect_flip_open(s, i) {
        Some(j) => j,
        None => {
            return None;
        },
    };
    let (bx, j2) = match parse_bool(s, j1) {
        Some(p) => p,
        None => {
            return None;
        },
    };
    let j3 = match expect_comma_y(s, j2) {
        Some(j) => j,
        None => {
            return None;
        },
    };
    let (by, j4) = match parse_bool(s, j3) {
        Some(p) => p,
        None => {
            return None;
        },
    };
    let j5 = match expect_comma_d(s, j4) {
        Some(j) => j,
        None => {
            return None;
        },
    };
    let (bd, j6) = match parse_bool(s, j5) {
        Some(p) => p,
        None => {
            return None;
        },
    };
    let j7 = match expect_close_flip(s, j6) {
        Some(j) => j,
        None => {
            return None;
        },
    };
    if !bx && !by && !bd {
        // a written-out default flip group is not canonical
        return None;
    }
    let rf = crate::tile::TileFlip { x: bx, y: by, d: bd };
    proof {
        assert(s@.subrange(i as int, j2 as int) =~= s@.subrange(i as int, j1 as int) + s@.subrange(
            j1 as int,
            j2 as int,
        ));
        assert(s@.subrange(i as int, j3 as int) =~= s@.subrange(i as int, j2 as int) + s@.subrange(
            j2 as int,
            j3 as int,
        ));
        assert(s@.subrange(i as int, j4 as int) =~= s@.subrange(i as int, j3 as int) + s@.subrange(
            j3 as int,
            j4 as int,
        ));
        assert(s@.subrange(i as int, j5 as int) =~= s@.subrange(i as int, j4 as int) + s@.subrange(
            j4 as int,
            j5 as int,
        ));
        assert(s@.subrange(i as int, j6 as int) =~= s@.subrange(i as int, j5 as int) + s@.subrange(
            j5 as int,
            j6 as int,
        ));
        assert(s@.subrange(i as int, j7 as int) =~= s@.subrange(i as int, j6 as int) + s@.subrange(
            j6 as int,
            j7 as int,
        ));
        assert(s@.subrange(i as int, j7 as int) == flip_enc(rf));
        assert(flip_at(s@, i as int, rf));
        assert forall|f: crate::tile::TileFlip|
            (#[trigger] flip_at(s@, i as int, f) && !f.is_default()) implies f == rf by {}
    }
    Some((rf, j7))
}

/// Reads an entry's closing at `i`: the plain close, or a non-default flip
/// group.
#[verifier::spinoff_prover]
#[verifier::rlimit(100)]
fn parse_flip(s: &Vec<u8>, i: usize) -> (r: Option<(crate::tile::TileFlip, usize)>)
    requires
        i <= s@.len(),
    ensures
        r matches Some(p) ==> flip_at(s@, i as int, p.0) && p.1 == i + flip_enc(p.0).len(),
        forall|f: crate::tile::TileFlip|
            #[trigger] flip_at(s@, i as int, f) ==> (r matches Some(p) && p.0 == f && p.1 == i
                + flip_enc(f).len()),
{
    if i < s.len() && s[i] == 41 {
        let j1 = match expect_close(s, i) {
            Some(j) => j,
            None => {
                proof {
                    assert forall|f: crate::tile::TileFlip| !flip_at(s@, i as int, f) by {
                        if flip_at(s@, i as int, f) {
                            lemma_flip_components(s@, i as int, f);
                            if !f.is_default() {
                                assert(s@.subrange(i as int, i + 9)[0] == s@[i as int]);
                            }
                        }
                    }
                }
                return None;
            },
        };
        let rf = crate::tile::TileFlip { x: false, y: false, d: false };
        proof {
            assert(s@.subrange(i as int, j1 as int) == flip_enc(rf));
            assert(flip_at(s@, i as int, rf));
            assert forall|f: crate::tile::TileFlip| #[trigger] flip_at(s@, i as int, f) implies f
                == rf by {
                lemma_flip_components(s@, i as int, f);
                if !f.is_default() {
                    assert(s@.subrange(i as int, i + 9)[0] == s@[i as int]);
                    assert(s@[i as int] == lit_flip_open()[0]);
                }
            }
        }
        Some((rf, j1))
    } else {
        proof {
            assert forall|f: crate::tile::TileFlip| #[trigger] flip_at(s@, i as int, f) implies
                !f.is_default() by {
                lemma_flip_components(s@, i as int, f);
                if f.is_default() {
                    assert(s@.subrange(i as int, i + 2)[0] == s@[i as int]);
                    assert(s@[i as int] == lit_close()[0]);
                }
            }
        }
        parse_flip_group(s, i)
    }
}

/// Reads one entry's encoding at `i`: exactly the text `encode_tile` writes,
/// including its trailing comma.
#[verifier::spinoff_prover]
#[verifier::rlimit(100)]
fn parse_tile(s: &Vec<u8>, i: usize) -> (r: Option<(SerializableTile, usize)>)
    requires
        i <= s@.len(),
    ensures
        r matches Some(p) ==> tile_at(s@, i as int, p.0) && p.1 == i + spec_enc_tile(p.0).len(),
        forall|t: SerializableTile|
            #[trigger] tile_at(s@, i as int, t) ==> (r matches Some(p) && p.0 == t && p.1 == i
                + spec_enc_tile(t).len()),
{
    let (vals, j5) = match parse_tile_head(s, i) {
        Some(p) => p,
        None => {
            return None;
        },
    };
    let (vx, vy, vid) = vals;
    proof {
        assert forall|t: SerializableTile| #[trigger] tile_at(s@, i as int, t) implies flip_at(
            s@,
            j5 as int,
            t.flip,
        ) by {
            lemma_enc_tile_split(t);
            lemma_sub_at(
                s@,
                i as int,
                spec_enc_tile(t),
                head_enc(t.pos.x, t.pos.y, t.id).len() as int,
                flip_enc(t.flip).len() as int,
            );
            assert(spec_enc_tile(t).subrange(
                head_enc(t.pos.x, t.pos.y, t.id).len() as int,
                spec_enc_tile(t).len() as int,
            ) =~= flip_enc(t.flip));
        }
    }
    let (f, j6) = match parse_flip(s, j5) {
        Some(p) => p,
        None => {
            proof {
                assert forall|t: SerializableTile| !tile_at(s@, i as int, t) by {}
            }
            return None;
        },
    };
    let rt = SerializableTile { pos: crate::store::TilePos { x: vx, y: vy }, id: vid, flip: f };
    proof {
        lemma_enc_tile_split(rt);
        assert(s@.subrange(i as int, j6 as int) =~= s@.subrange(i as int, j5 as int) + s@.subrange(
            j5 as int,
            j6 as int,
        ));
        assert(s@.subrange(i as int, j6 as int) == spec_enc_tile(rt));
        assert(tile_at(s@, i as int, rt));
        assert forall|t: SerializableTile| #[trigger] tile_at(s@, i as int, t) implies t == rt && i
            + spec_enc_tile(t).len() == j6 by {
            lemma_enc_tile_split(t);
        }
    }
    Some((rt, j6))
}
/// A run of entries encodes as any prefix's encoding followed by the rest's.
pub proof fn lemma_enc_tiles_split(ts: Seq<SerializableTile>, k: int)
    requires
        0 <= k <= ts.len(),
    ensures
        spec_enc_tiles(ts) == spec_enc_tiles(ts.take(k)) + spec_enc_tiles(ts.skip(k)),
    decreases k,
{
    if k == 0 {
        assert(ts.take(0) =~= Seq::<SerializableTile>::empty());
        assert(ts.skip(0) =~= ts);
        assert(spec_enc_tiles(ts.take(0)) + spec_enc_tiles(ts) =~= spec_enc_tiles(ts));
    } else {
        lemma_enc_tiles_split(ts, k - 1);
        let prev = ts.skip(k - 1);
        assert(prev.len() > 0);
        assert(prev[0] == ts[k - 1]);
        assert(spec_enc_tiles(prev) == spec_enc_tile(prev[0]) + spec_enc_tiles(prev.drop_first()));
        assert(prev.drop_first() =~= ts.skip(k));
        assert(ts.take(k) =~= ts.take(k - 1).push(ts[k - 1]));
        lemma_enc_tiles_push(ts.take(k - 1), ts[k - 1]);
        assert(spec_enc_tiles(ts.take(k - 1)) + (spec_enc_tile(ts[k - 1]) + spec_enc_tiles(
            ts.skip(k),
        )) =~= (spec_enc_tiles(ts.take(k - 1)) + spec_enc_tile(ts[k - 1])) + spec_enc_tiles(
            ts.skip(k),
        ));
    }
}

/// A document is its header, its entries and its footer, and the middle
/// part can be read at an offset.
#[verifier::spinoff_prover]
#[verifier::rlimit(100)]
proof fn lemma_level_frame(bytes: Seq<u8>, ts: Seq<SerializableTile>)
    requires
        bytes == spec_enc_level(ts),
    ensures
        bytes.len() == 8 + spec_enc_tiles(ts).len() + 2,
        bytes.subrange(0, 8) == lit_header(),
        bytes.subrange(8, 8 + spec_enc_tiles(ts).len() as int) == spec_enc_tiles(ts),
        bytes.subrange(
            8 + spec_enc_tiles(ts).len() as int,
            10 + spec_enc_tiles(ts).len() as int,
        ) == lit_footer(),
{
    let m = spec_enc_tiles(ts);
    assert(bytes.subrange(0, 8) =~= lit_header());
    assert(bytes.subrange(8, 8 + m.len() as int) =~= m);
    assert(bytes.subrange(8 + m.len() as int, 10 + m.len() as int) =~= lit_footer());
}

/// Where a document's pieces sit once the first `k` entries are consumed:
/// the next entry's bytes, or the footer, and the telltale first byte of
/// each.
#[verifier::spinoff_prover]
#[verifier::rlimit(100)]
proof fn lemma_level_at_k(bytes: Seq<u8>, ts: Seq<SerializableTile>, k: int)
    requires
        bytes == spec_enc_level(ts),
        0 <= k <= ts.len(),
    ensures
        bytes.len() >= 8,
        bytes.subrange(0, 8) == lit_header(),
        ({
            let o = 8 + spec_enc_tiles(ts.take(k)).len() as int;
            &&& o <= bytes.len()
            &&& (k < ts.len() ==> tile_at(bytes, o, ts[k]) && o < bytes.len() && bytes[o] == 40)
            &&& (k == ts.len() ==> o + 2 == bytes.len() && bytes.subrange(o, o + 2) == lit_footer()
                && bytes[o] == 93)
        }),
{
    lemma_level_frame(bytes, ts);
    let m = spec_enc_tiles(ts);
    lemma_enc_tiles_split(ts, k);
    let pre = spec_enc_tiles(ts.take(k));
    let o = 8 + pre.len() as int;
    if k < ts.len() {
        let rest = ts.skip(k);
        assert(rest.len() > 0);
        assert(rest[0] == ts[k]);
        assert(spec_enc_tiles(rest) == spec_enc_tile(rest[0]) + spec_enc_tiles(rest.drop_first()));
        let tl = spec_enc_tile(ts[k]).len() as int;
        assert(m.subrange(pre.len() as int, pre.len() + tl) =~= spec_enc_tile(ts[k]));
        lemma_sub_at(bytes, 8, m, pre.len() as int, tl);
        assert(tile_at(bytes, o, ts[k]));
        assert(bytes.subrange(o, o + tl)[0] == bytes[o]);
        assert(spec_enc_tile(ts[k]).subrange(0, 8) =~= lit_pos_open());
        assert(spec_enc_tile(ts[k])[0] == 40);
    } else {
        assert(ts.take(k) =~= ts);
        assert(bytes.subrange(o, o + 2) == lit_footer());
        assert(bytes.subrange(o, o + 2)[0] == bytes[o]);
    }
}

/// Reads a whole snapshot document: exactly the text `encode_level` writes.
/// Succeeds precisely on canonical documents, and on those returns the
/// entries the document was written from.
#[verifier::spinoff_prover]
#[verifier::rlimit(100)]
pub fn decode_level(bytes: &Vec<u8>) -> (r: Option<SerializableLevel>)
    ensures
        r matches Some(level) ==> bytes@ == spec_enc_level(level.tiles@),
        forall|ts: Seq<SerializableTile>|
            bytes@ == spec_enc_level(ts) ==> (r matches Some(level) && level.tiles@ == ts),
{
    let j0 = match expect_header(bytes, 0) {
        Some(j) => j,
        None => {
            proof {
                assert forall|ts: Seq<SerializableTile>| bytes@ != spec_enc_level(ts) by {
                    if bytes@ == spec_enc_level(ts) {
                        lemma_level_at_k(bytes@, ts, 0);
                    }
                }
            }
            return None;
        },
    };
    let mut acc: Vec<SerializableTile> = Vec::new();
    let mut pos: usize = j0;
    proof {
        assert(bytes@.subrange(8, 8) =~= spec_enc_tiles(acc@));
        assert forall|ts: Seq<SerializableTile>| bytes@ == spec_enc_level(ts) implies acc@
            =~= ts.take(acc@.len() as int) && pos == 8 + spec_enc_tiles(
            ts.take(acc@.len() as int),
        ).len() by {
            assert(ts.take(0) =~= Seq::<SerializableTile>::empty());
        }
    }
    loop
        invariant
            8 <= pos <= bytes@.len(),
            bytes@.subrange(0, 8) == lit_header(),
            bytes@.subrange(8, pos as int) == spec_enc_tiles(acc@),
            pos == 8 + spec_enc_tiles(acc@).len(),
            forall|ts: Seq<SerializableTile>|
                bytes@ == spec_enc_level(ts) ==> (acc@.len() <= ts.len() && acc@ == ts.take(
                    acc@.len() as int,
                ) && pos == 8 + spec_enc_tiles(ts.take(acc@.len() as int)).len()),
        decreases bytes@.len() - pos,
    {
        if pos < bytes.len() && bytes[pos] == 40 {
            let (t, j) = match parse_tile(bytes, pos) {
                Some(p) => p,
                None => {
                    proof {
                        assert forall|ts: Seq<SerializableTile>| bytes@ != spec_enc_level(ts) by {
                            if bytes@ == spec_enc_level(ts) {
                                lemma_level_at_k(bytes@, ts, acc@.len() as int);
                                assert(pos as int == 8 + spec_enc_tiles(
                                    ts.take(acc@.len() as int),
                                ).len());
                                if (acc@.len() as int) < ts.len() {
                                    assert(tile_at(bytes@, pos as int, ts[acc@.len() as int]));
                                    assert(false);
                                } else {
                                    assert(bytes@[pos as int] == 93);
                                    assert(false);
                                }
                            }
                        }
                    }
                    return None;
                },
            };
            let ghost acc0 = acc@;
            acc.push(t);
            proof {
                lemma_enc_tiles_push(acc0, t);
                assert(bytes@.subrange(8, j as int) =~= bytes@.subrange(8, pos as int)
                    + bytes@.subrange(pos as int, j as int));
                assert forall|ts: Seq<SerializableTile>|
                    bytes@ == spec_enc_level(ts) implies acc@.len() <= ts.len() && acc@ == ts.take(
                    acc@.len() as int,
                ) && j == 8 + spec_enc_tiles(ts.take(acc@.len() as int)).len() by {
                    lemma_level_at_k(bytes@, ts, acc0.len() as int);
                    assert(tile_at(bytes@, pos as int, ts[acc0.len() as int]));
                    assert(t == ts[acc0.len() as int]);
                    assert(ts.take(acc0.len() as int).push(t) =~= ts.take(acc0.len() as int + 1));
                    lemma_enc_tiles_push(ts.take(acc0.len() as int), t);
                }
            }
            pos = j;
        } else {
        let j1 = match expect_byte(bytes, pos, 93) {
            Some(j) => j,
            None => {
                proof {
                    assert forall|ts: Seq<SerializableTile>| bytes@ != spec_enc_level(ts) by {
                        if bytes@ == spec_enc_level(ts) {
                            lemma_level_at_k(bytes@, ts, acc@.len() as int);
                            if acc@.len() < ts.len() {
                                assert(bytes@[pos as int] == 40);
                            }
                            assert(bytes@.subrange(pos as int, pos + 2)[0] == bytes@[pos as int]);
                        }
                    }
                }
                return None;
            },
        };
        let j2 = match expect_byte(bytes, j1, 41) {
            Some(j) => j,
            None => {
                proof {
                    assert forall|ts: Seq<SerializableTile>| bytes@ != spec_enc_level(ts) by {
                        if bytes@ == spec_enc_level(ts) {
                            lemma_level_at_k(bytes@, ts, acc@.len() as int);
                            if acc@.len() < ts.len() {
                                assert(bytes@[pos as int] == 40);
                            }
                            assert(bytes@.subrange(pos as int, pos + 2)[1] == bytes@[pos + 1]);
                        }
                    }
                }
                return None;
            },
        };
        if j2 != bytes.len() {
            proof {
                assert forall|ts: Seq<SerializableTile>| bytes@ != spec_enc_level(ts) by {
                    if bytes@ == spec_enc_level(ts) {
                        lemma_level_at_k(bytes@, ts, acc@.len() as int);
                        if acc@.len() < ts.len() {
                            assert(bytes@[pos as int] == 40);
                        }
                    }
                }
            }
            return None;
        }
        proof {
            assert(bytes@.subrange(pos as int, j2 as int) =~= lit_footer());
            assert(bytes@.subrange(0, j2 as int) =~= bytes@.subrange(0, 8) + bytes@.subrange(
                8,
                pos as int,
            ) + bytes@.subrange(pos as int, j2 as int));
            assert(bytes@.subrange(0, j2 as int) =~= bytes@);
            assert(bytes@ == spec_enc_level(acc@));
            assert forall|ts: Seq<SerializableTile>| bytes@ == spec_enc_level(ts) implies acc@
                == ts by {
                if acc@.len() < ts.len() {
                    lemma_level_at_k(bytes@, ts, acc@.len() as int);
                    assert(bytes@[pos as int] == 40);
                }
                assert(ts.take(acc@.len() as int) =~= ts);
            }
        }
        return Some(SerializableLevel { tiles: acc });
        }
    }
}
} // verus!