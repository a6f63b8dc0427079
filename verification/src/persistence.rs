//! The persisted form of the catalog and its verified round trip.
//!
//! The catalog is stored as one textual document in a fixed, canonical
//! JSON shape:
//!
//! ```text
//! {"sheets":[{"id":"...","image_path":"...","sprite_sheet_width":N,
//! "sprite_sheet_height":N,"tile_width":N,"tile_height":N,"columns":N,
//! "rows":N,"frames":[{"hit_boxes":[{"size":[X,Y],"offset":[X,Y]},...],
//! "hurt_boxes":[...]},...]},...]}
//! ```
//!
//! Writing is deterministic: a catalog has exactly one encoding, given by
//! [`enc_catalog`].  Reading is strict: [`load_state_system`] accepts exactly
//! the canonical encodings and answers `Malformed` for every other input, so
//! `load` after `save` returns the catalog unchanged (see
//! [`lemma_save_load_round_trip`]).  Quotes and backslashes inside
//! identifiers and image paths travel escaped; every other byte travels as
//! itself.
//!
//! File input and output live outside this crate: the caller reads and writes
//! the bytes and reports `Io` on failure.

use vstd::prelude::*;

use crate::geometry::COORD_LIMIT;
use crate::geometry::HitBox;
use crate::geometry::HurtBox;
use crate::geometry::Vec2i;
use crate::geometry::rect_in_range;
use crate::geometry::vec2_in_range;
use crate::sheets::FrameData;
use crate::sheets::FrameView;
use crate::sheets::SpriteSheetInfo;
use crate::sheets::SpriteSheetsData;
use crate::sheets::SheetView;
use crate::sheets::clone_bytes;
use crate::sheets::frame_views;
use crate::sheets::sheet_views;
use crate::sheets::wf_catalog;
use crate::sheets::wf_frame;
use crate::sheets::wf_sheet;

verus! {

/// Why a catalog could not be persisted or restored.
#[derive(Clone, Copy, Debug, PartialEq, Eq, Structural)]
pub enum PersistenceError {
    /// The file could not be read or written.  Produced by the embedding
    /// layer that touches the file system, never by the codec itself.
    Io,
    /// The bytes are not a canonical encoding of any catalog.
    Malformed,
}

/// The suffix of `t` after its first `n` bytes; empty when `n` runs past the
/// end.  Total, so that recursive decoders can always advance.
pub open spec fn tail(t: Seq<u8>, n: nat) -> Seq<u8> {
    if n <= t.len() {
        t.skip(n as int)
    } else {
        Seq::empty()
    }
}

/// Dropping `a` then `b` bytes is dropping `a + b` bytes.
pub proof fn lemma_tail_tail(t: Seq<u8>, a: nat, b: nat)
    ensures
        tail(tail(t, a), b) == tail(t, a + b),
{
    assert(tail(tail(t, a), b) =~= tail(t, a + b));
}

/// A concatenation loses exactly its left part.
pub proof fn lemma_tail_concat(a: Seq<u8>, b: Seq<u8>)
    ensures
        tail(a + b, a.len()) == b,
{
    assert(tail(a + b, a.len()) =~= b);
}

/// Whether `t` begins with `lit`.
pub open spec fn starts_with(t: Seq<u8>, lit: Seq<u8>) -> bool {
    t.len() >= lit.len() && t.take(lit.len() as int) == lit
}

/// Decodes the fixed byte string `lit`: the number of bytes consumed, or
/// nothing if `t` does not begin with it.
pub open spec fn dec_lit(t: Seq<u8>, lit: Seq<u8>) -> Option<nat> {
    if starts_with(t, lit) {
        Some(lit.len())
    } else {
        None
    }
}

/// A literal reads back from its own encoding, whatever follows.
pub proof fn lemma_dec_lit(lit: Seq<u8>, rest: Seq<u8>)
    ensures
        dec_lit(lit + rest, lit) == Some(lit.len()),
        tail(lit + rest, lit.len()) == rest,
{
    assert((lit + rest).take(lit.len() as int) =~= lit);
    lemma_tail_concat(lit, rest);
}

/// Whether `b` is an ASCII decimal digit.
pub open spec fn is_digit(b: u8) -> bool {
    48 <= b <= 57
}

/// The decimal digits of `n`, most significant first.
pub open spec fn enc_nat(n: nat) -> Seq<u8>
    decreases n,
{
    if n < 10 {
        seq![(48 + n) as u8]
    } else {
        enc_nat(n / 10).push((48 + n % 10) as u8)
    }
}

/// The number a digit string denotes.
pub open spec fn seq_val(s: Seq<u8>) -> int
    decreases s.len(),
{
    if s.len() == 0 {
        0
    } else {
        seq_val(s.drop_last()) * 10 + (s.last() - 48)
    }
}

/// How many leading bytes of `t` are digits.
pub open spec fn digit_run(t: Seq<u8>) -> nat
    decreases t.len(),
{
    if t.len() > 0 && is_digit(t[0]) {
        1 + digit_run(tail(t, 1))
    } else {
        0
    }
}

/// Decodes an unsigned decimal number: the longest digit prefix, except that
/// a leading zero stands alone.  Nothing on a missing digit or a value past
/// `u64::MAX`.
pub open spec fn dec_u64(t: Seq<u8>) -> Option<(u64, nat)> {
    let k = digit_run(t);
    if k == 0 {
        None
    } else if t[0] == 48 {
        Some((0, 1))
    } else {
        let v = seq_val(t.take(k as int));
        if v <= u64::MAX {
            Some(((v as u64), k))
        } else {
            None
        }
    }
}

/// The digits of a number: at least one, all digits, no leading zero unless
/// the number is zero itself.
pub proof fn lemma_enc_nat_shape(n: nat)
    ensures
        enc_nat(n).len() >= 1,
        forall|i: int| 0 <= i < enc_nat(n).len() ==> is_digit(#[trigger] enc_nat(n)[i]),
        n > 0 ==> enc_nat(n)[0] != 48,
        n < 10 ==> enc_nat(n).len() == 1,
    decreases n,
{
    if n >= 10 {
        lemma_enc_nat_shape(n / 10);
        assert(forall|i: int|
            0 <= i < enc_nat(n / 10).len() ==> enc_nat(n)[i] == enc_nat(n / 10)[i]);
    }
}

/// A digit string denotes its number: evaluating the digits of `n` gives `n`.
pub proof fn lemma_enc_nat_val(n: nat)
    ensures
        seq_val(enc_nat(n)) == n,
    decreases n,
{
    if n < 10 {
        let s = enc_nat(n);
        assert(s =~= seq![(48 + n) as u8]);
        assert(s.drop_last() =~= Seq::<u8>::empty());
        assert(s.last() == (48 + n) as u8);
        assert(seq_val(Seq::<u8>::empty()) == 0);
        assert(seq_val(s) == 0 * 10 + ((48 + n) as u8 - 48));
    } else {
        lemma_enc_nat_val(n / 10);
        let s = enc_nat(n);
        assert(s == enc_nat(n / 10).push((48 + n % 10) as u8));
        assert(s.drop_last() =~= enc_nat(n / 10));
        assert(s.last() == (48 + n % 10) as u8);
        assert(seq_val(s) == seq_val(enc_nat(n / 10)) * 10 + ((48 + n % 10) as u8 - 48));
        assert((48 + n % 10) as u8 - 48 == n % 10);
        assert(n / 10 * 10 + n % 10 == n);
    }
}

/// The digit run of a digit string followed by a non-digit covers exactly the
/// digit string.
pub proof fn lemma_digit_run_concat(s: Seq<u8>, rest: Seq<u8>)
    requires
        forall|i: int| 0 <= i < s.len() ==> is_digit(#[trigger] s[i]),
        rest.len() == 0 || !is_digit(rest[0]),
    ensures
        digit_run(s + rest) == s.len(),
    decreases s.len(),
{
    if s.len() == 0 {
        assert(s + rest =~= rest);
    } else {
        lemma_digit_run_concat(s.skip(1), rest);
        assert(tail(s + rest, 1) =~= s.skip(1) + rest);
    }
}

/// A number reads back from its own digits when no digit follows them.
pub proof fn lemma_dec_u64(n: u64, rest: Seq<u8>)
    requires
        rest.len() == 0 || !is_digit(rest[0]),
    ensures
        dec_u64(enc_nat(n as nat) + rest) == Some((n, enc_nat(n as nat).len())),
        tail(enc_nat(n as nat) + rest, enc_nat(n as nat).len()) == rest,
{
    let s = enc_nat(n as nat);
    let t = s + rest;
    lemma_enc_nat_shape(n as nat);
    lemma_enc_nat_val(n as nat);
    lemma_digit_run_concat(s, rest);
    lemma_tail_concat(s, rest);
    assert(t[0] == s[0]);
    if n == 0 {
        assert(s.len() == 1 && s[0] == 48);
    } else {
        assert(t.take(s.len() as int) =~= s);
    }
}

/// The encoding of a signed number: a minus sign for a negative value, then
/// the digits of its magnitude.
pub open spec fn enc_i64(n: i64) -> Seq<u8> {
    if n >= 0 {
        enc_nat(n as nat)
    } else {
        seq![45u8] + enc_nat((-(n as int)) as nat)
    }
}

/// Decodes a signed decimal number.  A minus sign must be followed by a
/// nonzero magnitude — zero has only its unsigned spelling.
pub open spec fn dec_i64(t: Seq<u8>) -> Option<(i64, nat)> {
    if t.len() > 0 && t[0] == 45 {
        match dec_u64(tail(t, 1)) {
            Some((m, k)) => if 1 <= m <= 0x8000000000000000u64 {
                Some(((-(m as int)) as i64, k + 1))
            } else {
                None
            },
            None => None,
        }
    } else {
        match dec_u64(t) {
            Some((m, k)) => if m <= i64::MAX as u64 {
                Some((m as i64, k))
            } else {
                None
            },
            None => None,
        }
    }
}

/// A signed number reads back from its own encoding when no digit follows.
pub proof fn lemma_dec_i64(n: i64, rest: Seq<u8>)
    requires
        rest.len() == 0 || !is_digit(rest[0]),
    ensures
        dec_i64(enc_i64(n) + rest) == Some((n, enc_i64(n).len())),
        tail(enc_i64(n) + rest, enc_i64(n).len()) == rest,
{
    if n >= 0 {
        lemma_dec_u64(n as u64, rest);
        assert(enc_i64(n) + rest =~= enc_nat(n as nat) + rest);
        lemma_enc_nat_shape(n as nat);
        assert((enc_nat(n as nat) + rest)[0] != 45);
    } else {
        let m = (-(n as int)) as nat;
        let t = enc_i64(n) + rest;
        lemma_dec_u64((m as u64), rest);
        assert(t[0] == 45);
        assert(tail(t, 1) =~= enc_nat(m) + rest);
        lemma_tail_tail(t, 1, enc_nat(m).len());
        assert(tail(t, 1 + enc_nat(m).len()) == tail(enc_nat(m) + rest, enc_nat(m).len()));
    }
}

/// One byte of string content as it travels: quotes and backslashes behind a
/// backslash, every other byte as itself.
pub open spec fn esc_byte(b: u8) -> Seq<u8> {
    if b == 34 || b == 92 {
        seq![92u8, b]
    } else {
        seq![b]
    }
}

/// A whole string's content as it travels.
pub open spec fn esc(s: Seq<u8>) -> Seq<u8>
    decreases s.len(),
{
    if s.len() == 0 {
        Seq::empty()
    } else {
        esc_byte(s[0]) + esc(s.skip(1))
    }
}

/// The encoding of a byte string: its escaped content between quotes.
pub open spec fn enc_str(s: Seq<u8>) -> Seq<u8> {
    seq![34u8] + esc(s) + seq![34u8]
}

/// Decodes string content up to and including the closing quote.
pub open spec fn dec_str_body(t: Seq<u8>) -> Option<(Seq<u8>, nat)>
    decreases t.len(),
{
    if t.len() == 0 {
        None
    } else if t[0] == 34 {
        Some((Seq::empty(), 1))
    } else if t[0] == 92 {
        if t.len() >= 2 && (t[1] == 34 || t[1] == 92) {
            match dec_str_body(tail(t, 2)) {
                Some((s, k)) => Some((seq![t[1]] + s, k + 2)),
                None => None,
            }
        } else {
            None
        }
    } else {
        match dec_str_body(tail(t, 1)) {
            Some((s, k)) => Some((seq![t[0]] + s, k + 1)),
            None => None,
        }
    }
}

/// Decodes a quoted string.
pub open spec fn dec_str(t: Seq<u8>) -> Option<(Seq<u8>, nat)> {
    if t.len() > 0 && t[0] == 34 {
        match dec_str_body(tail(t, 1)) {
            Some((s, k)) => Some((s, k + 1)),
            None => None,
        }
    } else {
        None
    }
}

/// String content reads back from its own escaped form.
proof fn lemma_dec_str_body(s: Seq<u8>, rest: Seq<u8>)
    ensures
        dec_str_body(esc(s) + seq![34u8] + rest) == Some((s, (esc(s).len() + 1) as nat)),
        tail(esc(s) + seq![34u8] + rest, esc(s).len() + 1) == rest,
    decreases s.len(),
{
    let t = esc(s) + seq![34u8] + rest;
    if s.len() == 0 {
        assert(t =~= seq![34u8] + rest);
        assert(t[0] == 34);
        assert(tail(t, 1) =~= rest);
    } else {
        lemma_dec_str_body(s.skip(1), rest);
        let b = s[0];
        if b == 34 || b == 92 {
            assert(t =~= seq![92u8, b] + (esc(s.skip(1)) + seq![34u8] + rest));
            assert(t[0] == 92 && t[1] == b);
            assert(tail(t, 2) =~= esc(s.skip(1)) + seq![34u8] + rest);
            assert(seq![t[1]] + s.skip(1) =~= s);
            lemma_tail_tail(t, 2, esc(s.skip(1)).len() + 1);
        } else {
            assert(t =~= seq![b] + (esc(s.skip(1)) + seq![34u8] + rest));
            assert(t[0] == b && b != 34 && b != 92);
            assert(tail(t, 1) =~= esc(s.skip(1)) + seq![34u8] + rest);
            assert(seq![t[0]] + s.skip(1) =~= s);
            lemma_tail_tail(t, 1, esc(s.skip(1)).len() + 1);
        }
    }
}

/// A string reads back from its own encoding, whatever follows.
pub proof fn lemma_dec_str(s: Seq<u8>, rest: Seq<u8>)
    ensures
        dec_str(enc_str(s) + rest) == Some((s, enc_str(s).len())),
        tail(enc_str(s) + rest, enc_str(s).len()) == rest,
{
    let t = enc_str(s) + rest;
    lemma_dec_str_body(s, rest);
    assert(t[0] == 34);
    assert(tail(t, 1) =~= esc(s) + seq![34u8] + rest);
    lemma_tail_tail(t, 1, esc(s).len() + 1);
}

/// The bytes of `{"sheets":[`.
pub open spec fn lit_catalog_open() -> Seq<u8> {
    seq![123u8, 34u8, 115u8, 104u8, 101u8, 101u8, 116u8, 115u8, 34u8, 58u8, 91u8]
}

/// The bytes of `{"id":`.
pub open spec fn lit_id_open() -> Seq<u8> {
    seq![123u8, 34u8, 105u8, 100u8, 34u8, 58u8]
}

/// The bytes of `,"image_path":`.
pub open spec fn lit_image_path() -> Seq<u8> {
    seq![44u8, 34u8, 105u8, 109u8, 97u8, 103u8, 101u8, 95u8, 112u8, 97u8, 116u8, 104u8, 34u8, 58u8]
}

/// The bytes of `,"sprite_sheet_width":`.
pub open spec fn lit_sheet_width() -> Seq<u8> {
    seq![44u8, 34u8, 115u8, 112u8, 114u8, 105u8, 116u8, 101u8, 95u8, 115u8, 104u8, 101u8, 101u8, 116u8, 95u8, 119u8, 105u8, 100u8, 116u8, 104u8, 34u8, 58u8]
}

/// The bytes of `,"sprite_sheet_height":`.
pub open spec fn lit_sheet_height() -> Seq<u8> {
    seq![44u8, 34u8, 115u8, 112u8, 114u8, 105u8, 116u8, 101u8, 95u8, 115u8, 104u8, 101u8, 101u8, 116u8, 95u8, 104u8, 101u8, 105u8, 103u8, 104u8, 116u8, 34u8, 58u8]
}

/// The bytes of `,"tile_width":`.
pub open spec fn lit_tile_width() -> Seq<u8> {
    seq![44u8, 34u8, 116u8, 105u8, 108u8, 101u8, 95u8, 119u8, 105u8, 100u8, 116u8, 104u8, 34u8, 58u8]
}

/// The bytes of `,"tile_height":`.
pub open spec fn lit_tile_height() -> Seq<u8> {
    seq![44u8, 34u8, 116u8, 105u8, 108u8, 101u8, 95u8, 104u8, 101u8, 105u8, 103u8, 104u8, 116u8, 34u8, 58u8]
}

/// The bytes of `,"columns":`.
pub open spec fn lit_columns() -> Seq<u8> {
    seq![44u8, 34u8, 99u8, 111u8, 108u8, 117u8, 109u8, 110u8, 115u8, 34u8, 58u8]
}

/// The bytes of `,"rows":`.
pub open spec fn lit_rows() -> Seq<u8> {
    seq![44u8, 34u8, 114u8, 111u8, 119u8, 115u8, 34u8, 58u8]
}

/// The bytes of `,"frames":[`.
pub open spec fn lit_frames_open() -> Seq<u8> {
    seq![44u8, 34u8, 102u8, 114u8, 97u8, 109u8, 101u8, 115u8, 34u8, 58u8, 91u8]
}

/// The bytes of `{"hit_boxes":[`.
pub open spec fn lit_frame_open() -> Seq<u8> {
    seq![123u8, 34u8, 104u8, 105u8, 116u8, 95u8, 98u8, 111u8, 120u8, 101u8, 115u8, 34u8, 58u8, 91u8]
}

/// The bytes of `,"hurt_boxes":[`.
pub open spec fn lit_hurt_open() -> Seq<u8> {
    seq![44u8, 34u8, 104u8, 117u8, 114u8, 116u8, 95u8, 98u8, 111u8, 120u8, 101u8, 115u8, 34u8, 58u8, 91u8]
}

/// The bytes of `{"size":[`.
pub open spec fn lit_rect_open() -> Seq<u8> {
    seq![123u8, 34u8, 115u8, 105u8, 122u8, 101u8, 34u8, 58u8, 91u8]
}

/// The bytes of `],"offset":[`.
pub open spec fn lit_offset_open() -> Seq<u8> {
    seq![93u8, 44u8, 34u8, 111u8, 102u8, 102u8, 115u8, 101u8, 116u8, 34u8, 58u8, 91u8]
}

/// The bytes of `]}`.
pub open spec fn lit_rect_close() -> Seq<u8> {
    seq![93u8, 125u8]
}

/// The bytes of `}`.
pub open spec fn lit_obj_close() -> Seq<u8> {
    seq![125u8]
}

/// The content of a quoted-string field: its key literal, then the string.
#[verifier::opaque]
pub open spec fn enc_str_field(lit: Seq<u8>, s: Seq<u8>) -> Seq<u8> {
    lit + enc_str(s)
}

/// Decodes a quoted-string field.
#[verifier::opaque]
pub open spec fn dec_str_field(t: Seq<u8>, lit: Seq<u8>) -> Option<(Seq<u8>, nat)> {
    match dec_lit(t, lit) {
        Some(n) => match dec_str(tail(t, n)) {
            Some((s, k)) => Some((s, n + k)),
            None => None,
        },
        None => None,
    }
}

/// A string field reads back from its own encoding, whatever follows.
pub proof fn lemma_dec_str_field(lit: Seq<u8>, s: Seq<u8>, rest: Seq<u8>)
    ensures
        dec_str_field(enc_str_field(lit, s) + rest, lit) == Some((
            s,
            enc_str_field(lit, s).len(),
        )),
        tail(enc_str_field(lit, s) + rest, enc_str_field(lit, s).len()) == rest,
        enc_str_field(lit, s).len() >= lit.len(),
        lit.len() >= 1 ==> enc_str_field(lit, s)[0] == lit[0],
{
    reveal(enc_str_field);
    reveal(dec_str_field);
    let t = enc_str_field(lit, s) + rest;
    let r1 = enc_str(s) + rest;
    assert(t =~= lit + r1);
    lemma_dec_lit(lit, r1);
    lemma_dec_str(s, rest);
    lemma_tail_tail(t, lit.len(), enc_str(s).len());
}

/// The content of an unsigned-number field: its key literal, then the digits.
#[verifier::opaque]
pub open spec fn enc_u64_field(lit: Seq<u8>, n: u64) -> Seq<u8> {
    lit + enc_nat(n as nat)
}

/// Decodes an unsigned-number field.
#[verifier::opaque]
pub open spec fn dec_u64_field(t: Seq<u8>, lit: Seq<u8>) -> Option<(u64, nat)> {
    match dec_lit(t, lit) {
        Some(n) => match dec_u64(tail(t, n)) {
            Some((v, k)) => Some((v, n + k)),
            None => None,
        },
        None => None,
    }
}

/// A number field reads back from its own encoding when no digit follows.
pub proof fn lemma_dec_u64_field(lit: Seq<u8>, n: u64, rest: Seq<u8>)
    requires
        rest.len() == 0 || !is_digit(rest[0]),
    ensures
        dec_u64_field(enc_u64_field(lit, n) + rest, lit) == Some((
            n,
            enc_u64_field(lit, n).len(),
        )),
        tail(enc_u64_field(lit, n) + rest, enc_u64_field(lit, n).len()) == rest,
        enc_u64_field(lit, n).len() >= lit.len(),
        lit.len() >= 1 ==> enc_u64_field(lit, n)[0] == lit[0],
{
    reveal(enc_u64_field);
    reveal(dec_u64_field);
    let t = enc_u64_field(lit, n) + rest;
    let r1 = enc_nat(n as nat) + rest;
    assert(t =~= lit + r1);
    lemma_dec_lit(lit, r1);
    lemma_dec_u64(n, rest);
    lemma_tail_tail(t, lit.len(), enc_nat(n as nat).len());
}


/// The extents and offsets of hit regions, as codec pairs.
pub open spec fn hit_pairs(s: Seq<HitBox>) -> Seq<(Vec2i, Vec2i)> {
    s.map_values(|b: HitBox| (b.size, b.offset))
}

/// The extents and offsets of hurt regions, as codec pairs.
pub open spec fn hurt_pairs(s: Seq<HurtBox>) -> Seq<(Vec2i, Vec2i)> {
    s.map_values(|b: HurtBox| (b.size, b.offset))
}

/// Codec pairs read back as hit regions.
pub open spec fn pairs_to_hits(s: Seq<(Vec2i, Vec2i)>) -> Seq<HitBox> {
    s.map_values(|p: (Vec2i, Vec2i)| HitBox { size: p.0, offset: p.1 })
}

/// Codec pairs read back as hurt regions.
pub open spec fn pairs_to_hurts(s: Seq<(Vec2i, Vec2i)>) -> Seq<HurtBox> {
    s.map_values(|p: (Vec2i, Vec2i)| HurtBox { size: p.0, offset: p.1 })
}

/// Whether every pair stays within the coordinate bound.
pub open spec fn pairs_in_range(s: Seq<(Vec2i, Vec2i)>) -> bool {
    forall|i: int| 0 <= i < s.len() ==> rect_in_range((#[trigger] s[i]).0, s[i].1)
}

/// Whether every frame of the list is well-formed.
pub open spec fn frames_in_range(s: Seq<FrameView>) -> bool {
    forall|i: int| 0 <= i < s.len() ==> wf_frame(#[trigger] s[i])
}

/// Turning regions into pairs and back is the identity.
proof fn lemma_pairs_round_trip(hits: Seq<HitBox>, hurts: Seq<HurtBox>)
    ensures
        pairs_to_hits(hit_pairs(hits)) == hits,
        pairs_to_hurts(hurt_pairs(hurts)) == hurts,
{
    assert forall|i: int| 0 <= i < hits.len() implies pairs_to_hits(hit_pairs(hits))[i]
        == hits[i] by {
        assert(hit_pairs(hits)[i] == (hits[i].size, hits[i].offset));
    }
    assert(pairs_to_hits(hit_pairs(hits)) =~= hits);
    assert forall|i: int| 0 <= i < hurts.len() implies pairs_to_hurts(hurt_pairs(hurts))[i]
        == hurts[i] by {
        assert(hurt_pairs(hurts)[i] == (hurts[i].size, hurts[i].offset));
    }
    assert(pairs_to_hurts(hurt_pairs(hurts)) =~= hurts);
}

/// The encoding of a vector: both coordinates, comma-separated.
pub open spec fn enc_vec2(v: Vec2i) -> Seq<u8> {
    enc_i64(v.x) + seq![44u8] + enc_i64(v.y)
}

/// Decodes a vector, rejecting coordinates beyond the coordinate bound.
pub open spec fn dec_vec2(t: Seq<u8>) -> Option<(Vec2i, nat)> {
    match dec_i64(t) {
        Some((x, n1)) => if -COORD_LIMIT <= x <= COORD_LIMIT {
            match dec_lit(tail(t, n1), seq![44u8]) {
                Some(_) => match dec_i64(tail(t, n1 + 1)) {
                    Some((y, n2)) => if -COORD_LIMIT <= y <= COORD_LIMIT {
                        Some((Vec2i { x, y }, n1 + 1 + n2))
                    } else {
                        None
                    },
                    None => None,
                },
                None => None,
            }
        } else {
            None
        },
        None => None,
    }
}

/// A vector reads back from its own encoding when no digit follows.
pub proof fn lemma_dec_vec2(v: Vec2i, rest: Seq<u8>)
    requires
        vec2_in_range(v),
        rest.len() == 0 || !is_digit(rest[0]),
    ensures
        dec_vec2(enc_vec2(v) + rest) == Some((v, enc_vec2(v).len())),
        tail(enc_vec2(v) + rest, enc_vec2(v).len()) == rest,
{
    let e1 = enc_i64(v.x);
    let e2 = seq![44u8];
    let e3 = enc_i64(v.y);
    let r3 = e3 + rest;
    let r2 = e2 + r3;
    let t = enc_vec2(v) + rest;
    assert(t =~= e1 + r2);
    assert(r2[0] == 44u8);
    lemma_dec_i64(v.x, r2);
    lemma_dec_lit(e2, r3);
    lemma_tail_tail(t, e1.len(), 1);
    assert(r3[0] == e3[0]);
    lemma_enc_nat_shape((if v.y >= 0 { v.y as int } else { -(v.y as int) }) as nat);
    lemma_dec_i64(v.y, rest);
    lemma_tail_tail(t, e1.len() + 1, e3.len());
}

/// The encoding of a region rectangle: its extent and offset vectors.
#[verifier::opaque]
pub open spec fn enc_rect(sz: Vec2i, of: Vec2i) -> Seq<u8> {
    lit_rect_open() + enc_vec2(sz) + lit_offset_open() + enc_vec2(of) + lit_rect_close()
}

/// Decodes a region rectangle.
#[verifier::opaque]
pub open spec fn dec_rect(t: Seq<u8>) -> Option<((Vec2i, Vec2i), nat)> {
    match dec_lit(t, lit_rect_open()) {
        Some(n1) => match dec_vec2(tail(t, n1)) {
            Some((sz, n2)) => match dec_lit(tail(t, n1 + n2), lit_offset_open()) {
                Some(n3) => match dec_vec2(tail(t, n1 + n2 + n3)) {
                    Some((of, n4)) => match dec_lit(tail(t, n1 + n2 + n3 + n4), lit_rect_close()) {
                        Some(n5) => Some(((sz, of), n1 + n2 + n3 + n4 + n5)),
                        None => None,
                    },
                    None => None,
                },
                None => None,
            },
            None => None,
        },
        None => None,
    }
}

/// A rectangle reads back from its own encoding, whatever follows.
#[verifier::rlimit(100)]
pub proof fn lemma_dec_rect(sz: Vec2i, of: Vec2i, rest: Seq<u8>)
    requires
        rect_in_range(sz, of),
    ensures
        dec_rect(enc_rect(sz, of) + rest) == Some(((sz, of), enc_rect(sz, of).len())),
        tail(enc_rect(sz, of) + rest, enc_rect(sz, of).len()) == rest,
        enc_rect(sz, of).len() >= 1,
        enc_rect(sz, of)[0] == 123u8,
{
    reveal(enc_rect);
    reveal(dec_rect);
    let e1 = lit_rect_open();
    let e2 = enc_vec2(sz);
    let e3 = lit_offset_open();
    let e4 = enc_vec2(of);
    let e5 = lit_rect_close();
    let r5 = e5 + rest;
    let r4 = e4 + r5;
    let r3 = e3 + r4;
    let r2 = e2 + r3;
    let t = enc_rect(sz, of) + rest;
    assert(t =~= e1 + r2);
    lemma_dec_lit(e1, r2);
    lemma_tail_tail(t, 0, e1.len());
    assert(r3[0] == 93u8);
    lemma_dec_vec2(sz, r3);
    lemma_tail_tail(t, e1.len(), e2.len());
    lemma_dec_lit(e3, r4);
    lemma_tail_tail(t, e1.len() + e2.len(), e3.len());
    assert(r5[0] == 93u8);
    lemma_dec_vec2(of, r5);
    lemma_tail_tail(t, e1.len() + e2.len() + e3.len(), e4.len());
    lemma_dec_lit(e5, rest);
    lemma_tail_tail(t, e1.len() + e2.len() + e3.len() + e4.len(), e5.len());
}

/// The continuation of a rectangle list: either the closing bracket or a
/// comma and one more rectangle.
pub open spec fn enc_rect_rest(s: Seq<(Vec2i, Vec2i)>) -> Seq<u8>
    decreases s.len(),
{
    if s.len() == 0 {
        seq![93u8]
    } else {
        seq![44u8] + enc_rect(s[0].0, s[0].1) + enc_rect_rest(s.skip(1))
    }
}

/// The body of a rectangle list after its opening bracket, closing bracket
/// included.
pub open spec fn enc_rect_list(s: Seq<(Vec2i, Vec2i)>) -> Seq<u8> {
    if s.len() == 0 {
        seq![93u8]
    } else {
        enc_rect(s[0].0, s[0].1) + enc_rect_rest(s.skip(1))
    }
}

/// Decodes the continuation of a rectangle list.
pub open spec fn dec_rect_rest(t: Seq<u8>) -> Option<(Seq<(Vec2i, Vec2i)>, nat)>
    decreases t.len(),
{
    if t.len() == 0 {
        None
    } else if t[0] == 93 {
        Some((Seq::empty(), 1))
    } else if t[0] == 44 {
        match dec_rect(tail(t, 1)) {
            Some((p, n)) => match dec_rect_rest(tail(t, 1 + n)) {
                Some((s, m)) => Some((seq![p] + s, 1 + n + m)),
                None => None,
            },
            None => None,
        }
    } else {
        None
    }
}

/// Decodes the body of a rectangle list after its opening bracket.
pub open spec fn dec_rect_list(t: Seq<u8>) -> Option<(Seq<(Vec2i, Vec2i)>, nat)> {
    if t.len() == 0 {
        None
    } else if t[0] == 93 {
        Some((Seq::empty(), 1))
    } else {
        match dec_rect(t) {
            Some((p, n)) => match dec_rect_rest(tail(t, n)) {
                Some((s, m)) => Some((seq![p] + s, n + m)),
                None => None,
            },
            None => None,
        }
    }
}

/// A rectangle-list continuation reads back from its own encoding.
#[verifier::rlimit(100)]
proof fn lemma_dec_rect_rest(s: Seq<(Vec2i, Vec2i)>, rest: Seq<u8>)
    requires
        pairs_in_range(s),
    ensures
        dec_rect_rest(enc_rect_rest(s) + rest) == Some((s, enc_rect_rest(s).len())),
        tail(enc_rect_rest(s) + rest, enc_rect_rest(s).len()) == rest,
    decreases s.len(),
{
    let t = enc_rect_rest(s) + rest;
    if s.len() == 0 {
        assert(t =~= seq![93u8] + rest);
        assert(t[0] == 93);
        assert(tail(t, 1) =~= rest);
    } else {
        let e2 = enc_rect(s[0].0, s[0].1);
        let e3 = enc_rect_rest(s.skip(1));
        let r3 = e3 + rest;
        let r2 = e2 + r3;
        assert(t =~= seq![44u8] + r2);
        assert(t[0] == 44);
        assert(tail(t, 1) =~= r2);
        lemma_dec_rect(s[0].0, s[0].1, r3);
        lemma_tail_tail(t, 1, e2.len());
        assert(pairs_in_range(s.skip(1)));
        lemma_dec_rect_rest(s.skip(1), rest);
        lemma_tail_tail(t, 1 + e2.len(), e3.len());
        assert(seq![s[0]] + s.skip(1) =~= s);
    }
}

/// A rectangle-list body reads back from its own encoding.
#[verifier::rlimit(100)]
pub proof fn lemma_dec_rect_list(s: Seq<(Vec2i, Vec2i)>, rest: Seq<u8>)
    requires
        pairs_in_range(s),
    ensures
        dec_rect_list(enc_rect_list(s) + rest) == Some((s, enc_rect_list(s).len())),
        tail(enc_rect_list(s) + rest, enc_rect_list(s).len()) == rest,
{
    let t = enc_rect_list(s) + rest;
    if s.len() == 0 {
        assert(t =~= seq![93u8] + rest);
        assert(t[0] == 93);
        assert(tail(t, 1) =~= rest);
    } else {
        let e1 = enc_rect(s[0].0, s[0].1);
        let e2 = enc_rect_rest(s.skip(1));
        let r2 = e2 + rest;
        assert(t =~= e1 + r2);
        lemma_dec_rect(s[0].0, s[0].1, r2);
        assert(t[0] == 123);
        lemma_tail_tail(t, 0, e1.len());
        assert(pairs_in_range(s.skip(1)));
        lemma_dec_rect_rest(s.skip(1), rest);
        lemma_tail_tail(t, e1.len(), e2.len());
        assert(seq![s[0]] + s.skip(1) =~= s);
    }
}

/// The encoding of one frame: its hit regions, then its hurt regions.
#[verifier::opaque]
pub open spec fn enc_frame(f: FrameView) -> Seq<u8> {
    lit_frame_open() + enc_rect_list(hit_pairs(f.hit_boxes)) + lit_hurt_open() + enc_rect_list(
        hurt_pairs(f.hurt_boxes),
    ) + lit_obj_close()
}

/// Decodes one frame.
#[verifier::opaque]
pub open spec fn dec_frame(t: Seq<u8>) -> Option<(FrameView, nat)> {
    match dec_lit(t, lit_frame_open()) {
        Some(n1) => match dec_rect_list(tail(t, n1)) {
            Some((hits, n2)) => match dec_lit(tail(t, n1 + n2), lit_hurt_open()) {
                Some(n3) => match dec_rect_list(tail(t, n1 + n2 + n3)) {
                    Some((hurts, n4)) => match dec_lit(tail(t, n1 + n2 + n3 + n4), lit_obj_close()) {
                        Some(n5) => Some((
                            FrameView {
                                hit_boxes: pairs_to_hits(hits),
                                hurt_boxes: pairs_to_hurts(hurts),
                            },
                            n1 + n2 + n3 + n4 + n5,
                        )),
                        None => None,
                    },
                    None => None,
                },
                None => None,
            },
            None => None,
        },
        None => None,
    }
}

/// Well-formed regions give pairs within the coordinate bound.
proof fn lemma_wf_frame_pairs(f: FrameView)
    requires
        wf_frame(f),
    ensures
        pairs_in_range(hit_pairs(f.hit_boxes)),
        pairs_in_range(hurt_pairs(f.hurt_boxes)),
{
    assert forall|i: int| 0 <= i < hit_pairs(f.hit_boxes).len() implies rect_in_range(
        (#[trigger] hit_pairs(f.hit_boxes)[i]).0,
        hit_pairs(f.hit_boxes)[i].1,
    ) by {
        assert(hit_pairs(f.hit_boxes)[i] == (f.hit_boxes[i].size, f.hit_boxes[i].offset));
    }
    assert forall|i: int| 0 <= i < hurt_pairs(f.hurt_boxes).len() implies rect_in_range(
        (#[trigger] hurt_pairs(f.hurt_boxes)[i]).0,
        hurt_pairs(f.hurt_boxes)[i].1,
    ) by {
        assert(hurt_pairs(f.hurt_boxes)[i] == (f.hurt_boxes[i].size, f.hurt_boxes[i].offset));
    }
}

/// A frame reads back from its own encoding, whatever follows.
#[verifier::rlimit(100)]
pub proof fn lemma_dec_frame(f: FrameView, rest: Seq<u8>)
    requires
        wf_frame(f),
    ensures
        dec_frame(enc_frame(f) + rest) == Some((f, enc_frame(f).len())),
        tail(enc_frame(f) + rest, enc_frame(f).len()) == rest,
        enc_frame(f).len() >= 1,
        enc_frame(f)[0] == 123u8,
{
    reveal(enc_frame);
    reveal(dec_frame);
    let e1 = lit_frame_open();
    let e2 = enc_rect_list(hit_pairs(f.hit_boxes));
    let e3 = lit_hurt_open();
    let e4 = enc_rect_list(hurt_pairs(f.hurt_boxes));
    let e5 = lit_obj_close();
    let r5 = e5 + rest;
    let r4 = e4 + r5;
    let r3 = e3 + r4;
    let r2 = e2 + r3;
    let t = enc_frame(f) + rest;
    assert(t =~= e1 + r2);
    lemma_wf_frame_pairs(f);
    lemma_dec_lit(e1, r2);
    lemma_tail_tail(t, 0, e1.len());
    lemma_dec_rect_list(hit_pairs(f.hit_boxes), r3);
    lemma_tail_tail(t, e1.len(), e2.len());
    lemma_dec_lit(e3, r4);
    lemma_tail_tail(t, e1.len() + e2.len(), e3.len());
    lemma_dec_rect_list(hurt_pairs(f.hurt_boxes), r5);
    lemma_tail_tail(t, e1.len() + e2.len() + e3.len(), e4.len());
    lemma_dec_lit(e5, rest);
    lemma_tail_tail(t, e1.len() + e2.len() + e3.len() + e4.len(), e5.len());
    lemma_pairs_round_trip(f.hit_boxes, f.hurt_boxes);
    assert(dec_frame(t)->Some_0.0 =~= f);
}

/// The continuation of a frame list.
pub open spec fn enc_frame_rest(s: Seq<FrameView>) -> Seq<u8>
    decreases s.len(),
{
    if s.len() == 0 {
        seq![93u8]
    } else {
        seq![44u8] + enc_frame(s[0]) + enc_frame_rest(s.skip(1))
    }
}

/// The body of a frame list after its opening bracket.
pub open spec fn enc_frame_list(s: Seq<FrameView>) -> Seq<u8> {
    if s.len() == 0 {
        seq![93u8]
    } else {
        enc_frame(s[0]) + enc_frame_rest(s.skip(1))
    }
}

/// Decodes the continuation of a frame list.
pub open spec fn dec_frame_rest(t: Seq<u8>) -> Option<(Seq<FrameView>, nat)>
    decreases t.len(),
{
    if t.len() == 0 {
        None
    } else if t[0] == 93 {
        Some((Seq::empty(), 1))
    } else if t[0] == 44 {
        match dec_frame(tail(t, 1)) {
            Some((f, n)) => match dec_frame_rest(tail(t, 1 + n)) {
                Some((s, m)) => Some((seq![f] + s, 1 + n + m)),
                None => None,
            },
            None => None,
        }
    } else {
        None
    }
}

/// Decodes the body of a frame list after its opening bracket.
pub open spec fn dec_frame_list(t: Seq<u8>) -> Option<(Seq<FrameView>, nat)> {
    if t.len() == 0 {
        None
    } else if t[0] == 93 {
        Some((Seq::empty(), 1))
    } else {
        match dec_frame(t) {
            Some((f, n)) => match dec_frame_rest(tail(t, n)) {
                Some((s, m)) => Some((seq![f] + s, n + m)),
                None => None,
            },
            None => None,
        }
    }
}

/// A frame-list continuation reads back from its own encoding.
#[verifier::rlimit(100)]
proof fn lemma_dec_frame_rest(s: Seq<FrameView>, rest: Seq<u8>)
    requires
        frames_in_range(s),
    ensures
        dec_frame_rest(enc_frame_rest(s) + rest) == Some((s, enc_frame_rest(s).len())),
        tail(enc_frame_rest(s) + rest, enc_frame_rest(s).len()) == rest,
    decreases s.len(),
{
    let t = enc_frame_rest(s) + rest;
    if s.len() == 0 {
        assert(t =~= seq![93u8] + rest);
        assert(t[0] == 93);
        assert(tail(t, 1) =~= rest);
    } else {
        let e2 = enc_frame(s[0]);
        let e3 = enc_frame_rest(s.skip(1));
        let r3 = e3 + rest;
        let r2 = e2 + r3;
        assert(t =~= seq![44u8] + r2);
        assert(t[0] == 44);
        assert(tail(t, 1) =~= r2);
        lemma_dec_frame(s[0], r3);
        lemma_tail_tail(t, 1, e2.len());
        assert(frames_in_range(s.skip(1)));
        lemma_dec_frame_rest(s.skip(1), rest);
        lemma_tail_tail(t, 1 + e2.len(), e3.len());
        assert(seq![s[0]] + s.skip(1) =~= s);
    }
}

/// A frame-list body reads back from its own encoding.
#[verifier::rlimit(100)]
pub proof fn lemma_dec_frame_list(s: Seq<FrameView>, rest: Seq<u8>)
    requires
        frames_in_range(s),
    ensures
        dec_frame_list(enc_frame_list(s) + rest) == Some((s, enc_frame_list(s).len())),
        tail(enc_frame_list(s) + rest, enc_frame_list(s).len()) == rest,
{
    let t = enc_frame_list(s) + rest;
    if s.len() == 0 {
        assert(t =~= seq![93u8] + rest);
        assert(t[0] == 93);
        assert(tail(t, 1) =~= rest);
    } else {
        let e1 = enc_frame(s[0]);
        let e2 = enc_frame_rest(s.skip(1));
        let r2 = e2 + rest;
        assert(t =~= e1 + r2);
        lemma_dec_frame(s[0], r2);
        assert(t[0] == 123);
        lemma_tail_tail(t, 0, e1.len());
        assert(frames_in_range(s.skip(1)));
        lemma_dec_frame_rest(s.skip(1), rest);
        lemma_tail_tail(t, e1.len(), e2.len());
        assert(seq![s[0]] + s.skip(1) =~= s);
    }
}

/// The encoding of a sheet's scalar fields: its identifier, image path, and
/// grid geometry, in fixed key order.
#[verifier::opaque]
pub open spec fn enc_sheet_head(s: SheetView) -> Seq<u8> {
    enc_str_field(lit_id_open(), s.id) + enc_str_field(lit_image_path(), s.image_path)
        + enc_u64_field(lit_sheet_width(), s.sprite_sheet_width) + enc_u64_field(
        lit_sheet_height(),
        s.sprite_sheet_height,
    ) + enc_u64_field(lit_tile_width(), s.tile_width) + enc_u64_field(
        lit_tile_height(),
        s.tile_height,
    ) + enc_u64_field(lit_columns(), s.columns) + enc_u64_field(lit_rows(), s.rows)
}

/// Decodes a sheet's scalar fields into a sheet with no frames yet.
#[verifier::opaque]
pub open spec fn dec_sheet_head(t: Seq<u8>) -> Option<(SheetView, nat)> {
    match dec_str_field(t, lit_id_open()) {
        Some((id, c1)) => match dec_str_field(tail(t, c1), lit_image_path()) {
            Some((image_path, k2)) => match dec_u64_field(tail(t, c1 + k2), lit_sheet_width()) {
                Some((w, k3)) => match dec_u64_field(tail(t, c1 + k2 + k3), lit_sheet_height()) {
                    Some((h, k4)) => match dec_u64_field(
                        tail(t, c1 + k2 + k3 + k4),
                        lit_tile_width(),
                    ) {
                        Some((tw, k5)) => match dec_u64_field(
                            tail(t, c1 + k2 + k3 + k4 + k5),
                            lit_tile_height(),
                        ) {
                            Some((th, k6)) => match dec_u64_field(
                                tail(t, c1 + k2 + k3 + k4 + k5 + k6),
                                lit_columns(),
                            ) {
                                Some((cols, k7)) => match dec_u64_field(
                                    tail(t, c1 + k2 + k3 + k4 + k5 + k6 + k7),
                                    lit_rows(),
                                ) {
                                    Some((rows, k8)) => Some((
                                        SheetView {
                                            id,
                                            image_path,
                                            sprite_sheet_width: w,
                                            sprite_sheet_height: h,
                                            tile_width: tw,
                                            tile_height: th,
                                            columns: cols,
                                            rows,
                                            frames: Seq::empty(),
                                        },
                                        c1 + k2 + k3 + k4 + k5 + k6 + k7 + k8,
                                    )),
                                    None => None,
                                },
                                None => None,
                            },
                            None => None,
                        },
                        None => None,
                    },
                    None => None,
                },
                None => None,
            },
            None => None,
        },
        None => None,
    }
}

/// A sheet's scalar fields read back from their own encoding when no digit
/// follows.
#[verifier::rlimit(100)]
pub proof fn lemma_dec_sheet_head(s: SheetView, rest: Seq<u8>)
    requires
        rest.len() == 0 || !is_digit(rest[0]),
    ensures
        dec_sheet_head(enc_sheet_head(s) + rest) == Some((
            SheetView { frames: Seq::empty(), ..s },
            enc_sheet_head(s).len(),
        )),
        tail(enc_sheet_head(s) + rest, enc_sheet_head(s).len()) == rest,
        enc_sheet_head(s).len() >= 1,
        enc_sheet_head(s)[0] == 123u8,
{
    reveal(enc_sheet_head);
    reveal(dec_sheet_head);
    let e1 = enc_str_field(lit_id_open(), s.id);
    let e2 = enc_str_field(lit_image_path(), s.image_path);
    let e3 = enc_u64_field(lit_sheet_width(), s.sprite_sheet_width);
    let e4 = enc_u64_field(lit_sheet_height(), s.sprite_sheet_height);
    let e5 = enc_u64_field(lit_tile_width(), s.tile_width);
    let e6 = enc_u64_field(lit_tile_height(), s.tile_height);
    let e7 = enc_u64_field(lit_columns(), s.columns);
    let e8 = enc_u64_field(lit_rows(), s.rows);
    let r8 = e8 + rest;
    let r7 = e7 + r8;
    let r6 = e6 + r7;
    let r5 = e5 + r6;
    let r4 = e4 + r5;
    let r3 = e3 + r4;
    let r2 = e2 + r3;
    let t = enc_sheet_head(s) + rest;
    assert(t =~= e1 + r2);
    lemma_dec_u64_field(lit_rows(), s.rows, rest);
    assert(r8[0] == 44u8);
    lemma_dec_u64_field(lit_columns(), s.columns, r8);
    assert(r7[0] == 44u8);
    lemma_dec_u64_field(lit_tile_height(), s.tile_height, r7);
    assert(r6[0] == 44u8);
    lemma_dec_u64_field(lit_tile_width(), s.tile_width, r6);
    assert(r5[0] == 44u8);
    lemma_dec_u64_field(lit_sheet_height(), s.sprite_sheet_height, r5);
    assert(r4[0] == 44u8);
    lemma_dec_u64_field(lit_sheet_width(), s.sprite_sheet_width, r4);
    lemma_dec_str_field(lit_image_path(), s.image_path, r3);
    lemma_dec_str_field(lit_id_open(), s.id, r2);
    lemma_tail_tail(t, 0, e1.len());
    lemma_tail_tail(t, e1.len(), e2.len());
    lemma_tail_tail(t, e1.len() + e2.len(), e3.len());
    lemma_tail_tail(t, e1.len() + e2.len() + e3.len(), e4.len());
    lemma_tail_tail(t, e1.len() + e2.len() + e3.len() + e4.len(), e5.len());
    lemma_tail_tail(t, e1.len() + e2.len() + e3.len() + e4.len() + e5.len(), e6.len());
    lemma_tail_tail(t, e1.len() + e2.len() + e3.len() + e4.len() + e5.len() + e6.len(), e7.len());
    lemma_tail_tail(
        t,
        e1.len() + e2.len() + e3.len() + e4.len() + e5.len() + e6.len() + e7.len(),
        e8.len(),
    );
    assert(dec_sheet_head(t)->Some_0.0 =~= SheetView { frames: Seq::empty(), ..s });
}

/// The encoding of one sheet: its scalar fields, then its frames.
#[verifier::opaque]
pub open spec fn enc_sheet(s: SheetView) -> Seq<u8> {
    enc_sheet_head(s) + lit_frames_open() + enc_frame_list(s.frames) + lit_obj_close()
}

/// Decodes one sheet.
#[verifier::opaque]
pub open spec fn dec_sheet(t: Seq<u8>) -> Option<(SheetView, nat)> {
    match dec_sheet_head(t) {
        Some((head, c1)) => match dec_lit(tail(t, c1), lit_frames_open()) {
            Some(k2) => match dec_frame_list(tail(t, c1 + k2)) {
                Some((frames, k3)) => match dec_lit(tail(t, c1 + k2 + k3), lit_obj_close()) {
                    Some(k4) => Some((SheetView { frames, ..head }, c1 + k2 + k3 + k4)),
                    None => None,
                },
                None => None,
            },
            None => None,
        },
        None => None,
    }
}

/// A sheet reads back from its own encoding, whatever follows.
#[verifier::rlimit(100)]
pub proof fn lemma_dec_sheet(s: SheetView, rest: Seq<u8>)
    requires
        wf_sheet(s),
    ensures
        dec_sheet(enc_sheet(s) + rest) == Some((s, enc_sheet(s).len())),
        tail(enc_sheet(s) + rest, enc_sheet(s).len()) == rest,
        enc_sheet(s).len() >= 1,
        enc_sheet(s)[0] == 123u8,
{
    reveal(enc_sheet);
    reveal(dec_sheet);
    let e1 = enc_sheet_head(s);
    let e2 = lit_frames_open();
    let e3 = enc_frame_list(s.frames);
    let e4 = lit_obj_close();
    let r4 = e4 + rest;
    let r3 = e3 + r4;
    let r2 = e2 + r3;
    let t = enc_sheet(s) + rest;
    assert(t =~= e1 + r2);
    assert(r2[0] == 44u8);
    lemma_dec_sheet_head(s, r2);
    lemma_tail_tail(t, 0, e1.len());
    lemma_dec_lit(e2, r3);
    lemma_tail_tail(t, e1.len(), e2.len());
    lemma_dec_frame_list(s.frames, r4);
    lemma_tail_tail(t, e1.len() + e2.len(), e3.len());
    lemma_dec_lit(e4, rest);
    lemma_tail_tail(t, e1.len() + e2.len() + e3.len(), e4.len());
    assert(dec_sheet(t)->Some_0.0 =~= s);
}

/// The continuation of the sheet list.
pub open spec fn enc_sheet_rest(s: Seq<SheetView>) -> Seq<u8>
    decreases s.len(),
{
    if s.len() == 0 {
        seq![93u8]
    } else {
        seq![44u8] + enc_sheet(s[0]) + enc_sheet_rest(s.skip(1))
    }
}

/// The body of the sheet list after its opening bracket.
pub open spec fn enc_sheet_list(s: Seq<SheetView>) -> Seq<u8> {
    if s.len() == 0 {
        seq![93u8]
    } else {
        enc_sheet(s[0]) + enc_sheet_rest(s.skip(1))
    }
}

/// Decodes the continuation of the sheet list.
pub open spec fn dec_sheet_rest(t: Seq<u8>) -> Option<(Seq<SheetView>, nat)>
    decreases t.len(),
{
    if t.len() == 0 {
        None
    } else if t[0] == 93 {
        Some((Seq::empty(), 1))
    } else if t[0] == 44 {
        match dec_sheet(tail(t, 1)) {
            Some((v, n)) => match dec_sheet_rest(tail(t, 1 + n)) {
                Some((s, m)) => Some((seq![v] + s, 1 + n + m)),
                None => None,
            },
            None => None,
        }
    } else {
        None
    }
}

/// Decodes the body of the sheet list after its opening bracket.
pub open spec fn dec_sheet_list(t: Seq<u8>) -> Option<(Seq<SheetView>, nat)> {
    if t.len() == 0 {
        None
    } else if t[0] == 93 {
        Some((Seq::empty(), 1))
    } else {
        match dec_sheet(t) {
            Some((v, n)) => match dec_sheet_rest(tail(t, n)) {
                Some((s, m)) => Some((seq![v] + s, n + m)),
                None => None,
            },
            None => None,
        }
    }
}

/// A sheet-list continuation reads back from its own encoding.
#[verifier::rlimit(100)]
proof fn lemma_dec_sheet_rest(s: Seq<SheetView>, rest: Seq<u8>)
    requires
        wf_catalog(s),
    ensures
        dec_sheet_rest(enc_sheet_rest(s) + rest) == Some((s, enc_sheet_rest(s).len())),
        tail(enc_sheet_rest(s) + rest, enc_sheet_rest(s).len()) == rest,
    decreases s.len(),
{
    let t = enc_sheet_rest(s) + rest;
    if s.len() == 0 {
        assert(t =~= seq![93u8] + rest);
        assert(t[0] == 93);
        assert(tail(t, 1) =~= rest);
    } else {
        let e2 = enc_sheet(s[0]);
        let e3 = enc_sheet_rest(s.skip(1));
        let r3 = e3 + rest;
        let r2 = e2 + r3;
        assert(t =~= seq![44u8] + r2);
        assert(t[0] == 44);
        assert(tail(t, 1) =~= r2);
        assert(wf_sheet(s[0]));
        lemma_dec_sheet(s[0], r3);
        lemma_tail_tail(t, 1, e2.len());
        assert(wf_catalog(s.skip(1)));
        lemma_dec_sheet_rest(s.skip(1), rest);
        lemma_tail_tail(t, 1 + e2.len(), e3.len());
        assert(seq![s[0]] + s.skip(1) =~= s);
    }
}

/// A sheet-list body reads back from its own encoding.
#[verifier::rlimit(100)]
proof fn lemma_dec_sheet_list(s: Seq<SheetView>, rest: Seq<u8>)
    requires
        wf_catalog(s),
    ensures
        dec_sheet_list(enc_sheet_list(s) + rest) == Some((s, enc_sheet_list(s).len())),
        tail(enc_sheet_list(s) + rest, enc_sheet_list(s).len()) == rest,
{
    let t = enc_sheet_list(s) + rest;
    if s.len() == 0 {
        assert(t =~= seq![93u8] + rest);
        assert(t[0] == 93);
        assert(tail(t, 1) =~= rest);
    } else {
        let e1 = enc_sheet(s[0]);
        let e2 = enc_sheet_rest(s.skip(1));
        let r2 = e2 + rest;
        assert(t =~= e1 + r2);
        assert(wf_sheet(s[0]));
        lemma_dec_sheet(s[0], r2);
        assert(t[0] == 123);
        lemma_tail_tail(t, 0, e1.len());
        assert(wf_catalog(s.skip(1)));
        lemma_dec_sheet_rest(s.skip(1), rest);
        lemma_tail_tail(t, e1.len(), e2.len());
        assert(seq![s[0]] + s.skip(1) =~= s);
    }
}

/// The one canonical encoding of a catalog.
pub open spec fn enc_catalog(c: Seq<SheetView>) -> Seq<u8> {
    lit_catalog_open() + enc_sheet_list(c) + lit_obj_close()
}

/// Decodes a catalog document.
pub open spec fn dec_catalog(t: Seq<u8>) -> Option<(Seq<SheetView>, nat)> {
    match dec_lit(t, lit_catalog_open()) {
        Some(n1) => match dec_sheet_list(tail(t, n1)) {
            Some((c, n2)) => match dec_lit(tail(t, n1 + n2), lit_obj_close()) {
                Some(n3) => Some((c, n1 + n2 + n3)),
                None => None,
            },
            None => None,
        },
        None => None,
    }
}

/// What a byte string denotes: the catalog it is the canonical encoding of,
/// the whole of it, or nothing.
pub open spec fn spec_load(t: Seq<u8>) -> Option<Seq<SheetView>> {
    match dec_catalog(t) {
        Some((c, n)) => if n == t.len() {
            Some(c)
        } else {
            None
        },
        None => None,
    }
}

/// A catalog reads back from its own encoding, whatever follows.
#[verifier::rlimit(100)]
pub proof fn lemma_dec_catalog(c: Seq<SheetView>, rest: Seq<u8>)
    requires
        wf_catalog(c),
    ensures
        dec_catalog(enc_catalog(c) + rest) == Some((c, enc_catalog(c).len())),
        tail(enc_catalog(c) + rest, enc_catalog(c).len()) == rest,
{
    let e1 = lit_catalog_open();
    let e2 = enc_sheet_list(c);
    let e3 = lit_obj_close();
    let r3 = e3 + rest;
    let r2 = e2 + r3;
    let t = enc_catalog(c) + rest;
    assert(t =~= e1 + r2);
    lemma_dec_lit(e1, r2);
    lemma_tail_tail(t, 0, e1.len());
    lemma_dec_sheet_list(c, r3);
    lemma_tail_tail(t, e1.len(), e2.len());
    lemma_dec_lit(e3, rest);
    lemma_tail_tail(t, e1.len() + e2.len(), e3.len());
}

/// Round trip: saving any well-formed catalog and loading the bytes back
/// yields exactly that catalog, sheet for sheet, frame for frame, region for
/// region.
pub proof fn lemma_save_load_round_trip(c: Seq<SheetView>)
    requires
        wf_catalog(c),
    ensures
        spec_load(enc_catalog(c)) == Some(c),
{
    lemma_dec_catalog(c, Seq::empty());
    assert(enc_catalog(c) + Seq::<u8>::empty() =~= enc_catalog(c));
}


/// A digit run never exceeds the input, covers only digits, and stops at the
/// first non-digit.
proof fn lemma_digit_run_facts(t: Seq<u8>)
    ensures
        digit_run(t) <= t.len(),
        forall|j: int| 0 <= j < digit_run(t) ==> is_digit(#[trigger] t[j]),
        digit_run(t) < t.len() ==> !is_digit(t[digit_run(t) as int]),
    decreases t.len(),
{
    if t.len() > 0 && is_digit(t[0]) {
        lemma_digit_run_facts(tail(t, 1));
        assert(tail(t, 1) =~= t.skip(1));
        assert forall|j: int| 0 <= j < digit_run(t) implies is_digit(#[trigger] t[j]) by {
            if j > 0 {
                assert(t.skip(1)[j - 1] == t[j]);
            }
        }
        if digit_run(t) < t.len() {
            assert(t.skip(1)[digit_run(t) - 1] == t[digit_run(t) as int]);
        }
    }
}

/// A digit string denotes a nonnegative number.
proof fn lemma_seq_val_nonneg(s: Seq<u8>)
    requires
        forall|j: int| 0 <= j < s.len() ==> is_digit(#[trigger] s[j]),
    ensures
        seq_val(s) >= 0,
    decreases s.len(),
{
    if s.len() > 0 {
        lemma_seq_val_nonneg(s.drop_last());
    }
}

/// Reads the fixed byte string `lit` at `pos`.
fn parse_lit(t: &Vec<u8>, pos: usize, lit: &Vec<u8>) -> (r: Option<usize>)
    requires
        pos <= t@.len(),
    ensures
        match r {
            Some(end) => dec_lit(t@.skip(pos as int), lit@) == Some(lit@.len()) && end == pos
                + lit@.len() && end <= t@.len(),
            None => dec_lit(t@.skip(pos as int), lit@) is None,
        },
{
    if t.len() - pos < lit.len() {
        return None;
    }
    let mut j: usize = 0;
    while j < lit.len()
        invariant
            0 <= j <= lit@.len(),
            pos + lit@.len() <= t@.len(),
            t@.len() <= usize::MAX,
            forall|x: int| 0 <= x < j ==> t@[pos + x] == lit@[x],
        decreases lit@.len() - j,
    {
        if t[pos + j] != lit[j] {
            proof {
                let s = t@.skip(pos as int);
                assert(s.take(lit@.len() as int)[j as int] == t@[pos + j]);
            }
            return None;
        }
        j = j + 1;
    }
    proof {
        let s = t@.skip(pos as int);
        assert(s.take(lit@.len() as int) =~= lit@);
    }
    Some(pos + lit.len())
}

/// Reads an unsigned decimal number at `pos`.
fn parse_u64(t: &Vec<u8>, pos: usize) -> (r: Option<(u64, usize)>)
    requires
        pos <= t@.len(),
    ensures
        match r {
            Some(p) => dec_u64(t@.skip(pos as int)) == Some((p.0, (p.1 - pos) as nat)) && pos < p.1
                <= t@.len(),
            None => dec_u64(t@.skip(pos as int)) is None,
        },
{
    let ghost s = t@.skip(pos as int);
    proof {
        lemma_digit_run_facts(s);
    }
    let ghost k = digit_run(s);
    if pos == t.len() || !(48 <= t[pos] && t[pos] <= 57) {
        proof {
            if pos < t@.len() {
                assert(s[0] == t@[pos as int]);
            }
            assert(digit_run(s) == 0);
        }
        return None;
    }
    proof {
        assert(s[0] == t@[pos as int]);
        assert(k >= 1);
    }
    if t[pos] == 48 {
        return Some((0, pos + 1));
    }
    let mut i: usize = pos;
    let mut acc: u64 = 0;
    while i < t.len() && 48 <= t[i] && t[i] <= 57
        invariant
            pos <= i <= t@.len(),
            i - pos <= k,
            pos <= t@.len(),
            s == t@.skip(pos as int),
            k == digit_run(s),
            k <= s.len(),
            1 <= k,
            s.len() > 0,
            s[0] != 48,
            t@.len() <= usize::MAX,
            forall|j: int| 0 <= j < k ==> is_digit(#[trigger] s[j]),
            k < s.len() ==> !is_digit(s[k as int]),
            acc == seq_val(s.take(i - pos)),
        decreases t@.len() - i,
    {
        let ghost m = i - pos;
        proof {
            assert(s[m as int] == t@[i as int]);
            if m >= k {
                assert(m == k);
                assert(k < s.len());
                assert(!is_digit(s[k as int]));
            }
            assert(m < k);
            assert(s.take(m + 1).drop_last() =~= s.take(m as int));
            assert(s.take(m + 1).last() == s[m as int]);
        }
        let d: u8 = t[i] - 48;
        let next = match acc.checked_mul(10) {
            Some(x) => x.checked_add(d as u64),
            None => None,
        };
        match next {
            Some(y) => {
                acc = y;
            },
            None => {
                proof {
                    assert(seq_val(s.take(m + 1)) == seq_val(s.take(m as int)) * 10 + (s[m as int]
                        - 48));
                    assert(seq_val(s.take(m + 1)) > u64::MAX);
                    lemma_seq_val_take_le_partial(s, m + 1, k as int);
                    assert(seq_val(s.take(k as int)) > u64::MAX);
                }
                return None;
            },
        }
        i = i + 1;
    }
    proof {
        if i - pos < k {
            assert(is_digit(s[i - pos]));
            assert(s[i - pos] == t@[i as int]);
            assert(pos + k <= t@.len());
            assert(i < t@.len());
            assert(false);
        }
        assert(i - pos == k);
    }
    Some((acc, i))
}

/// Extending a digit prefix within the digit run never shrinks its value.
proof fn lemma_seq_val_take_le_partial(s: Seq<u8>, a: int, b: int)
    requires
        forall|j: int| 0 <= j < b ==> is_digit(#[trigger] s[j]),
        0 <= a <= b <= s.len(),
    ensures
        seq_val(s.take(a)) <= seq_val(s.take(b)),
    decreases b - a,
{
    if a < b {
        lemma_seq_val_take_le_partial(s, a, b - 1);
        assert(s.take(b).drop_last() =~= s.take(b - 1));
        assert forall|j: int| 0 <= j < s.take(b - 1).len() implies is_digit(
            #[trigger] s.take(b - 1)[j],
        ) by {
            assert(s.take(b - 1)[j] == s[j]);
        }
        lemma_seq_val_nonneg(s.take(b - 1));
        assert(seq_val(s.take(b)) == seq_val(s.take(b - 1)) * 10 + (s.take(b).last() - 48));
    }
}

/// Reads a signed decimal number at `pos`.
fn parse_i64(t: &Vec<u8>, pos: usize) -> (r: Option<(i64, usize)>)
    requires
        pos <= t@.len(),
    ensures
        match r {
            Some(p) => dec_i64(t@.skip(pos as int)) == Some((p.0, (p.1 - pos) as nat)) && pos < p.1
                <= t@.len(),
            None => dec_i64(t@.skip(pos as int)) is None,
        },
{
    let ghost s = t@.skip(pos as int);
    if pos < t.len() && t[pos] == 45 {
        proof {
            assert(s[0] == t@[pos as int]);
            assert(tail(s, 1) =~= t@.skip(pos + 1));
        }
        match parse_u64(t, pos + 1) {
            Some((m, end)) => {
                if 1 <= m && m <= 0x8000000000000000u64 {
                    let v: i64 = if m == 0x8000000000000000u64 {
                        i64::MIN
                    } else {
                        -(m as i64)
                    };
                    proof {
                        assert(v == (-(m as int)) as i64);
                    }
                    Some((v, end))
                } else {
                    None
                }
            },
            None => None,
        }
    } else {
        proof {
            if pos < t@.len() {
                assert(s[0] == t@[pos as int]);
            }
        }
        match parse_u64(t, pos) {
            Some((m, end)) => {
                if m <= 0x7fffffffffffffffu64 {
                    Some((m as i64, end))
                } else {
                    None
                }
            },
            None => None,
        }
    }
}

/// Reads a quoted string at `pos`, undoing the escapes.
fn parse_str(t: &Vec<u8>, pos: usize) -> (r: Option<(Vec<u8>, usize)>)
    requires
        pos <= t@.len(),
    ensures
        match r {
            Some(p) => (match dec_str(t@.skip(pos as int)) {
                Some(q) => q.0 == p.0@ && q.1 == (p.1 - pos) as nat && pos < p.1 <= t@.len(),
                None => false,
            }),
            None => dec_str(t@.skip(pos as int)) is None,
        },
{
    if pos == t.len() || t[pos] != 34 {
        proof {
            if pos < t@.len() {
                assert(t@.skip(pos as int)[0] == t@[pos as int]);
            }
        }
        return None;
    }
    proof {
        assert(t@.skip(pos as int)[0] == 34);
        assert(tail(t@.skip(pos as int), 1) =~= t@.skip(pos + 1));
    }
    let mut out: Vec<u8> = Vec::new();
    let mut i: usize = pos + 1;
    while i < t.len()
        invariant
            pos + 1 <= i <= t@.len(),
            t@.len() <= usize::MAX,
            pos < t@.len(),
            t@.skip(pos as int)[0] == 34,
            tail(t@.skip(pos as int), 1) == t@.skip(pos + 1),
            match dec_str_body(t@.skip(i as int)) {
                Some(p2) => dec_str_body(t@.skip(pos + 1)) == Some((
                    out@ + p2.0,
                    ((i - pos - 1) + p2.1) as nat,
                )),
                None => dec_str_body(t@.skip(pos + 1)) is None,
            },
        decreases t@.len() - i,
    {
        let ghost cur = t@.skip(i as int);
        proof {
            assert(cur[0] == t@[i as int]);
        }
        let b = t[i];
        if b == 34 {
            proof {
                assert(dec_str_body(cur) == Some((Seq::<u8>::empty(), 1nat)));
                assert(out@ + Seq::<u8>::empty() =~= out@);
            }
            return Some((out, i + 1));
        } else if b == 92 {
            if i + 1 < t.len() && (t[i + 1] == 34 || t[i + 1] == 92) {
                let x = t[i + 1];
                proof {
                    assert(cur.len() >= 2);
                    assert(cur[1] == t@[i + 1]);
                    assert(tail(cur, 2) =~= t@.skip(i + 2));
                    if dec_str_body(t@.skip(i + 2)) is Some {
                        let p2 = dec_str_body(t@.skip(i + 2))->Some_0;
                        assert(dec_str_body(cur) == Some((seq![cur[1]] + p2.0, (p2.1 + 2) as nat)));
                        assert(out@ + (seq![x] + p2.0) =~= (out@ + seq![x]) + p2.0);
                    }
                }
                out.push(x);
                i = i + 2;
            } else {
                proof {
                    if i + 1 < t@.len() {
                        assert(cur[1] == t@[i + 1]);
                        assert(dec_str_body(cur) is None);
                    } else {
                        assert(cur.len() == 1);
                        assert(dec_str_body(cur) is None);
                    }
                }
                return None;
            }
        } else {
            proof {
                assert(tail(cur, 1) =~= t@.skip(i + 1));
                if dec_str_body(t@.skip(i + 1)) is Some {
                    let p2 = dec_str_body(t@.skip(i + 1))->Some_0;
                    assert(dec_str_body(cur) == Some((seq![cur[0]] + p2.0, (p2.1 + 1) as nat)));
                    assert(out@ + (seq![b] + p2.0) =~= (out@ + seq![b]) + p2.0);
                }
            }
            out.push(b);
            i = i + 1;
        }
    }
    proof {
        assert(t@.skip(i as int).len() == 0);
        assert(dec_str_body(t@.skip(i as int)) is None);
    }
    None
}

fn lit_catalog_open_v() -> (r: Vec<u8>)
    ensures
        r@ == lit_catalog_open(),
{
    let mut r: Vec<u8> = Vec::new();
    r.push(123);
    r.push(34);
    r.push(115);
    r.push(104);
    r.push(101);
    r.push(101);
    r.push(116);
    r.push(115);
    r.push(34);
    r.push(58);
    r.push(91);
    proof {
        assert(r@ =~= lit_catalog_open());
    }
    r
}

fn lit_id_open_v() -> (r: Vec<u8>)
    ensures
        r@ == lit_id_open(),
{
    let mut r: Vec<u8> = Vec::new();
    r.push(123);
    r.push(34);
    r.push(105);
    r.push(100);
    r.push(34);
    r.push(58);
    proof {
        assert(r@ =~= lit_id_open());
    }
    r
}

fn lit_image_path_v() -> (r: Vec<u8>)
    ensures
        r@ == lit_image_path(),
{
    let mut r: Vec<u8> = Vec::new();
    r.push(44);
    r.push(34);
    r.push(105);
    r.push(109);
    r.push(97);
    r.push(103);
    r.push(101);
    r.push(95);
    r.push(112);
    r.push(97);
    r.push(116);
    r.push(104);
    r.push(34);
    r.push(58);
    proof {
        assert(r@ =~= lit_image_path());
    }
    r
}

fn lit_sheet_width_v() -> (r: Vec<u8>)
    ensures
        r@ == lit_sheet_width(),
{
    let mut r: Vec<u8> = Vec::new();
    r.push(44);
    r.push(34);
    r.push(115);
    r.push(112);
    r.push(114);
    r.push(105);
    r.push(116);
    r.push(101);
    r.push(95);
    r.push(115);
    r.push(104);
    r.push(101);
    r.push(101);
    r.push(116);
    r.push(95);
    r.push(119);
    r.push(105);
    r.push(100);
    r.push(116);
    r.push(104);
    r.push(34);
    r.push(58);
    proof {
        assert(r@ =~= lit_sheet_width());
    }
    r
}

fn lit_sheet_height_v() -> (r: Vec<u8>)
    ensures
        r@ == lit_sheet_height(),
{
    let mut r: Vec<u8> = Vec::new();
    r.push(44);
    r.push(34);
    r.push(115);
    r.push(112);
    r.push(114);
    r.push(105);
    r.push(116);
    r.push(101);
    r.push(95);
    r.push(115);
    r.push(104);
    r.push(101);
    r.push(101);
    r.push(116);
    r.push(95);
    r.push(104);
    r.push(101);
    r.push(105);
    r.push(103);
    r.push(104);
    r.push(116);
    r.push(34);
    r.push(58);
    proof {
        assert(r@ =~= lit_sheet_height());
    }
    r
}

fn lit_tile_width_v() -> (r: Vec<u8>)
    ensures
        r@ == lit_tile_width(),
{
    let mut r: Vec<u8> = Vec::new();
    r.push(44);
    r.push(34);
    r.push(116);
    r.push(105);
    r.push(108);
    r.push(101);
    r.push(95);
    r.push(119);
    r.push(105);
    r.push(100);
    r.push(116);
    r.push(104);
    r.push(34);
    r.push(58);
    proof {
        assert(r@ =~= lit_tile_width());
    }
    r
}

fn lit_tile_height_v() -> (r: Vec<u8>)
    ensures
        r@ == lit_tile_height(),
{
    let mut r: Vec<u8> = Vec::new();
    r.push(44);
    r.push(34);
    r.push(116);
    r.push(105);
    r.push(108);
    r.push(101);
    r.push(95);
    r.push(104);
    r.push(101);
    r.push(105);
    r.push(103);
    r.push(104);
    r.push(116);
    r.push(34);
    r.push(58);
    proof {
        assert(r@ =~= lit_tile_height());
    }
    r
}

fn lit_columns_v() -> (r: Vec<u8>)
    ensures
        r@ == lit_columns(),
{
    let mut r: Vec<u8> = Vec::new();
    r.push(44);
    r.push(34);
    r.push(99);
    r.push(111);
    r.push(108);
    r.push(117);
    r.push(109);
    r.push(110);
    r.push(115);
    r.push(34);
    r.push(58);
    proof {
        assert(r@ =~= lit_columns());
    }
    r
}

fn lit_rows_v() -> (r: Vec<u8>)
    ensures
        r@ == lit_rows(),
{
    let mut r: Vec<u8> = Vec::new();
    r.push(44);
    r.push(34);
    r.push(114);
    r.push(111);
    r.push(119);
    r.push(115);
    r.push(34);
    r.push(58);
    proof {
        assert(r@ =~= lit_rows());
    }
    r
}

fn lit_frames_open_v() -> (r: Vec<u8>)
    ensures
        r@ == lit_frames_open(),
{
    let mut r: Vec<u8> = Vec::new();
    r.push(44);
    r.push(34);
    r.push(102);
    r.push(114);
    r.push(97);
    r.push(109);
    r.push(101);
    r.push(115);
    r.push(34);
    r.push(58);
    r.push(91);
    proof {
        assert(r@ =~= lit_frames_open());
    }
    r
}

fn lit_frame_open_v() -> (r: Vec<u8>)
    ensures
        r@ == lit_frame_open(),
{
    let mut r: Vec<u8> = Vec::new();
    r.push(123);
    r.push(34);
    r.push(104);
    r.push(105);
    r.push(116);
    r.push(95);
    r.push(98);
    r.push(111);
    r.push(120);
    r.push(101);
    r.push(115);
    r.push(34);
    r.push(58);
    r.push(91);
    proof {
        assert(r@ =~= lit_frame_open());
    }
    r
}

fn lit_hurt_open_v() -> (r: Vec<u8>)
    ensures
        r@ == lit_hurt_open(),
{
    let mut r: Vec<u8> = Vec::new();
    r.push(44);
    r.push(34);
    r.push(104);
    r.push(117);
    r.push(114);
    r.push(116);
    r.push(95);
    r.push(98);
    r.push(111);
    r.push(120);
    r.push(101);
    r.push(115);
    r.push(34);
    r.push(58);
    r.push(91);
    proof {
        assert(r@ =~= lit_hurt_open());
    }
    r
}

fn lit_rect_open_v() -> (r: Vec<u8>)
    ensures
        r@ == lit_rect_open(),
{
    let mut r: Vec<u8> = Vec::new();
    r.push(123);
    r.push(34);
    r.push(115);
    r.push(105);
    r.push(122);
    r.push(101);
    r.push(34);
    r.push(58);
    r.push(91);
    proof {
        assert(r@ =~= lit_rect_open());
    }
    r
}

fn lit_offset_open_v() -> (r: Vec<u8>)
    ensures
        r@ == lit_offset_open(),
{
    let mut r: Vec<u8> = Vec::new();
    r.push(93);
    r.push(44);
    r.push(34);
    r.push(111);
    r.push(102);
    r.push(102);
    r.push(115);
    r.push(101);
    r.push(116);
    r.push(34);
    r.push(58);
    r.push(91);
    proof {
        assert(r@ =~= lit_offset_open());
    }
    r
}

fn lit_rect_close_v() -> (r: Vec<u8>)
    ensures
        r@ == lit_rect_close(),
{
    let mut r: Vec<u8> = Vec::new();
    r.push(93);
    r.push(125);
    proof {
        assert(r@ =~= lit_rect_close());
    }
    r
}

fn lit_obj_close_v() -> (r: Vec<u8>)
    ensures
        r@ == lit_obj_close(),
{
    let mut r: Vec<u8> = Vec::new();
    r.push(125);
    proof {
        assert(r@ =~= lit_obj_close());
    }
    r
}

/// Reads one comma at `pos`.
fn parse_comma(t: &Vec<u8>, pos: usize) -> (r: Option<usize>)
    requires
        pos <= t@.len(),
    ensures
        match r {
            Some(end) => dec_lit(t@.skip(pos as int), seq![44u8]) == Some(1nat) && end == pos + 1
                && end <= t@.len(),
            None => dec_lit(t@.skip(pos as int), seq![44u8]) is None,
        },
{
    let ghost s = t@.skip(pos as int);
    if pos < t.len() && t[pos] == 44 {
        proof {
            assert(s[0] == 44);
            assert(s.take(1) =~= seq![44u8]);
            assert(starts_with(s, seq![44u8]));
            assert(seq![44u8].len() == 1);
        }
        Some(pos + 1)
    } else {
        proof {
            assert(dec_lit(s, seq![44u8]) is None) by {
                if starts_with(s, seq![44u8]) {
                    assert(s.take(1)[0] == s[0]);
                    assert(seq![44u8][0] == 44u8);
                    assert(s[0] == t@[pos as int]);
                }
            }
        }
        None
    }
}

/// Reads a coordinate vector at `pos`.
fn parse_vec2(t: &Vec<u8>, pos: usize) -> (r: Option<(Vec2i, usize)>)
    requires
        pos <= t@.len(),
    ensures
        match r {
            Some(p) => dec_vec2(t@.skip(pos as int)) == Some((p.0, (p.1 - pos) as nat)) && pos < p.1
                <= t@.len(),
            None => dec_vec2(t@.skip(pos as int)) is None,
        },
{
    let ghost s = t@.skip(pos as int);
    match parse_i64(t, pos) {
        Some((x, e1)) => {
            proof {
                assert(tail(s, (e1 - pos) as nat) =~= t@.skip(e1 as int));
            }
            if !(-COORD_LIMIT <= x && x <= COORD_LIMIT) {
                return None;
            }
            match parse_comma(t, e1) {
                Some(e2) => {
                    proof {
                        assert(tail(s, (e2 - pos) as nat) =~= t@.skip(e2 as int));
                    }
                    match parse_i64(t, e2) {
                        Some((y, e3)) => if -COORD_LIMIT <= y && y <= COORD_LIMIT {
                            Some((Vec2i { x, y }, e3))
                        } else {
                            None
                        },
                        None => None,
                    }
                },
                None => None,
            }
        },
        None => None,
    }
}

/// Reads one region rectangle at `pos`.
#[verifier::rlimit(100)]
fn parse_rect(t: &Vec<u8>, pos: usize) -> (r: Option<((Vec2i, Vec2i), usize)>)
    requires
        pos <= t@.len(),
    ensures
        match r {
            Some(p) => dec_rect(t@.skip(pos as int)) == Some((p.0, (p.1 - pos) as nat)) && pos < p.1
                <= t@.len(),
            None => dec_rect(t@.skip(pos as int)) is None,
        },
{
    proof {
        reveal(dec_rect);
    }
    let ghost s = t@.skip(pos as int);
    let open = lit_rect_open_v();
    match parse_lit(t, pos, &open) {
        Some(e1) => {
            proof {
                assert(tail(s, (e1 - pos) as nat) =~= t@.skip(e1 as int));
            }
            match parse_vec2(t, e1) {
                Some((sz, e2)) => {
                    proof {
                        assert(tail(s, (e2 - pos) as nat) =~= t@.skip(e2 as int));
                    }
                    let mid = lit_offset_open_v();
                    match parse_lit(t, e2, &mid) {
                        Some(e3) => {
                            proof {
                                assert(tail(s, (e3 - pos) as nat) =~= t@.skip(e3 as int));
                            }
                            match parse_vec2(t, e3) {
                                Some((of, e4)) => {
                                    proof {
                                        assert(tail(s, (e4 - pos) as nat) =~= t@.skip(e4 as int));
                                    }
                                    let close = lit_rect_close_v();
                                    match parse_lit(t, e4, &close) {
                                        Some(e5) => Some(((sz, of), e5)),
                                        None => None,
                                    }
                                },
                                None => None,
                            }
                        },
                        None => None,
                    }
                },
                None => None,
            }
        },
        None => None,
    }
}

/// Reads the continuation of a rectangle list at `pos`.
fn parse_rect_rest(t: &Vec<u8>, pos: usize) -> (r: Option<(Vec<(Vec2i, Vec2i)>, usize)>)
    requires
        pos <= t@.len(),
    ensures
        match r {
            Some(p) => dec_rect_rest(t@.skip(pos as int)) == Some((p.0@, (p.1 - pos) as nat)) && pos
                < p.1 <= t@.len(),
            None => dec_rect_rest(t@.skip(pos as int)) is None,
        },
    decreases t@.len() - pos,
{
    let ghost s = t@.skip(pos as int);
    if pos == t.len() {
        return None;
    }
    proof {
        assert(s[0] == t@[pos as int]);
    }
    if t[pos] == 93 {
        let v: Vec<(Vec2i, Vec2i)> = Vec::new();
        proof {
            assert(v@ =~= Seq::<(Vec2i, Vec2i)>::empty());
        }
        Some((v, pos + 1))
    } else if t[pos] == 44 {
        proof {
            assert(tail(s, 1) =~= t@.skip(pos + 1));
        }
        match parse_rect(t, pos + 1) {
            Some((p, e1)) => {
                proof {
                    assert(tail(s, (e1 - pos) as nat) =~= t@.skip(e1 as int));
                }
                match parse_rect_rest(t, e1) {
                    Some((mut v, e2)) => {
                        let ghost prev = v@;
                        v.insert(0, p);
                        proof {
                            assert(v@ =~= seq![p] + prev);
                        }
                        Some((v, e2))
                    },
                    None => None,
                }
            },
            None => None,
        }
    } else {
        None
    }
}

/// Reads the body of a rectangle list at `pos`.
fn parse_rect_list(t: &Vec<u8>, pos: usize) -> (r: Option<(Vec<(Vec2i, Vec2i)>, usize)>)
    requires
        pos <= t@.len(),
    ensures
        match r {
            Some(p) => dec_rect_list(t@.skip(pos as int)) == Some((p.0@, (p.1 - pos) as nat)) && pos
                < p.1 <= t@.len(),
            None => dec_rect_list(t@.skip(pos as int)) is None,
        },
{
    let ghost s = t@.skip(pos as int);
    if pos == t.len() {
        return None;
    }
    proof {
        assert(s[0] == t@[pos as int]);
    }
    if t[pos] == 93 {
        let v: Vec<(Vec2i, Vec2i)> = Vec::new();
        proof {
            assert(v@ =~= Seq::<(Vec2i, Vec2i)>::empty());
        }
        Some((v, pos + 1))
    } else {
        match parse_rect(t, pos) {
            Some((p, e1)) => {
                proof {
                    assert(tail(s, (e1 - pos) as nat) =~= t@.skip(e1 as int));
                }
                match parse_rect_rest(t, e1) {
                    Some((mut v, e2)) => {
                        let ghost prev = v@;
                        v.insert(0, p);
                        proof {
                            assert(v@ =~= seq![p] + prev);
                        }
                        Some((v, e2))
                    },
                    None => None,
                }
            },
            None => None,
        }
    }
}

/// Reads one frame at `pos`.
fn parse_frame(t: &Vec<u8>, pos: usize) -> (r: Option<(FrameData, usize)>)
    requires
        pos <= t@.len(),
    ensures
        match r {
            Some(p) => (match dec_frame(t@.skip(pos as int)) {
                Some(q) => q.0 == p.0@ && q.1 == (p.1 - pos) as nat && pos < p.1 <= t@.len(),
                None => false,
            }),
            None => dec_frame(t@.skip(pos as int)) is None,
        },
{
    proof {
        reveal(dec_frame);
    }
    let ghost s = t@.skip(pos as int);
    let open = lit_frame_open_v();
    match parse_lit(t, pos, &open) {
        Some(e1) => {
            proof {
                assert(tail(s, (e1 - pos) as nat) =~= t@.skip(e1 as int));
            }
            match parse_rect_list(t, e1) {
                Some((hits, e2)) => {
                    proof {
                        assert(tail(s, (e2 - pos) as nat) =~= t@.skip(e2 as int));
                    }
                    let mid = lit_hurt_open_v();
                    match parse_lit(t, e2, &mid) {
                        Some(e3) => {
                            proof {
                                assert(tail(s, (e3 - pos) as nat) =~= t@.skip(e3 as int));
                            }
                            match parse_rect_list(t, e3) {
                                Some((hurts, e4)) => {
                                    proof {
                                        assert(tail(s, (e4 - pos) as nat) =~= t@.skip(e4 as int));
                                    }
                                    let close = lit_obj_close_v();
                                    match parse_lit(t, e4, &close) {
                                        Some(e5) => {
                                            let mut hit_boxes: Vec<HitBox> = Vec::new();
                                            let mut i: usize = 0;
                                            while i < hits.len()
                                                invariant
                                                    0 <= i <= hits@.len(),
                                                    hit_boxes@ == pairs_to_hits(hits@).take(
                                                        i as int,
                                                    ),
                                                decreases hits@.len() - i,
                                            {
                                                let (sz, of) = hits[i];
                                                hit_boxes.push(HitBox { size: sz, offset: of });
                                                proof {
                                                    assert(hit_boxes@ =~= pairs_to_hits(
                                                        hits@,
                                                    ).take(i + 1));
                                                }
                                                i = i + 1;
                                            }
                                            let mut hurt_boxes: Vec<HurtBox> = Vec::new();
                                            let mut j: usize = 0;
                                            while j < hurts.len()
                                                invariant
                                                    0 <= j <= hurts@.len(),
                                                    hurt_boxes@ == pairs_to_hurts(hurts@).take(
                                                        j as int,
                                                    ),
                                                decreases hurts@.len() - j,
                                            {
                                                let (sz, of) = hurts[j];
                                                hurt_boxes.push(HurtBox { size: sz, offset: of });
                                                proof {
                                                    assert(hurt_boxes@ =~= pairs_to_hurts(
                                                        hurts@,
                                                    ).take(j + 1));
                                                }
                                                j = j + 1;
                                            }
                                            let fd = FrameData { hit_boxes, hurt_boxes };
                                            proof {
                                                let ph = pairs_to_hits(hits@);
                                                let pu = pairs_to_hurts(hurts@);
                                                assert(ph.take(ph.len() as int) =~= ph);
                                                assert(pu.take(pu.len() as int) =~= pu);
                                                assert(fd@ =~= dec_frame(s)->Some_0.0);
                                            }
                                            Some((fd, e5))
                                        },
                                        None => None,
                                    }
                                },
                                None => None,
                            }
                        },
                        None => None,
                    }
                },
                None => None,
            }
        },
        None => None,
    }
}


/// Reads the continuation of a frame list at `pos`.
fn parse_frame_rest(t: &Vec<u8>, pos: usize) -> (r: Option<(Vec<FrameData>, usize)>)
    requires
        pos <= t@.len(),
    ensures
        match r {
            Some(p) => (match dec_frame_rest(t@.skip(pos as int)) {
                Some(q) => q.0 == frame_views(p.0@) && q.1 == (p.1 - pos) as nat && pos < p.1
                    <= t@.len(),
                None => false,
            }),
            None => dec_frame_rest(t@.skip(pos as int)) is None,
        },
    decreases t@.len() - pos,
{
    let ghost s = t@.skip(pos as int);
    if pos == t.len() {
        return None;
    }
    proof {
        assert(s[0] == t@[pos as int]);
    }
    if t[pos] == 93 {
        let v: Vec<FrameData> = Vec::new();
        proof {
            assert(frame_views(v@) =~= Seq::<FrameView>::empty());
        }
        Some((v, pos + 1))
    } else if t[pos] == 44 {
        proof {
            assert(tail(s, 1) =~= t@.skip(pos + 1));
        }
        match parse_frame(t, pos + 1) {
            Some((f, e1)) => {
                proof {
                    assert(tail(s, (e1 - pos) as nat) =~= t@.skip(e1 as int));
                }
                match parse_frame_rest(t, e1) {
                    Some((mut v, e2)) => {
                        let ghost prev = v@;
                        let ghost fview = f@;
                        v.insert(0, f);
                        proof {
                            assert(v@ =~= seq![f] + prev);
                            assert forall|x: int| 0 <= x < v@.len() implies frame_views(v@)[x] == (
                            seq![fview] + frame_views(prev))[x] by {
                                assert(frame_views(v@)[x] == v@[x]@);
                                if x > 0 {
                                    assert(frame_views(prev)[x - 1] == prev[x - 1]@);
                                }
                            }
                            assert(frame_views(v@) =~= seq![fview] + frame_views(prev));
                        }
                        Some((v, e2))
                    },
                    None => None,
                }
            },
            None => None,
        }
    } else {
        None
    }
}

/// Reads the body of a frame list at `pos`.
fn parse_frame_list(t: &Vec<u8>, pos: usize) -> (r: Option<(Vec<FrameData>, usize)>)
    requires
        pos <= t@.len(),
    ensures
        match r {
            Some(p) => (match dec_frame_list(t@.skip(pos as int)) {
                Some(q) => q.0 == frame_views(p.0@) && q.1 == (p.1 - pos) as nat && pos < p.1
                    <= t@.len(),
                None => false,
            }),
            None => dec_frame_list(t@.skip(pos as int)) is None,
        },
{
    let ghost s = t@.skip(pos as int);
    if pos == t.len() {
        return None;
    }
    proof {
        assert(s[0] == t@[pos as int]);
    }
    if t[pos] == 93 {
        let v: Vec<FrameData> = Vec::new();
        proof {
            assert(frame_views(v@) =~= Seq::<FrameView>::empty());
        }
        Some((v, pos + 1))
    } else {
        match parse_frame(t, pos) {
            Some((f, e1)) => {
                proof {
                    assert(tail(s, (e1 - pos) as nat) =~= t@.skip(e1 as int));
                }
                match parse_frame_rest(t, e1) {
                    Some((mut v, e2)) => {
                        let ghost prev = v@;
                        let ghost fview = f@;
                        v.insert(0, f);
                        proof {
                            assert(v@ =~= seq![f] + prev);
                            assert forall|x: int| 0 <= x < v@.len() implies frame_views(v@)[x] == (
                            seq![fview] + frame_views(prev))[x] by {
                                assert(frame_views(v@)[x] == v@[x]@);
                                if x > 0 {
                                    assert(frame_views(prev)[x - 1] == prev[x - 1]@);
                                }
                            }
                            assert(frame_views(v@) =~= seq![fview] + frame_views(prev));
                        }
                        Some((v, e2))
                    },
                    None => None,
                }
            },
            None => None,
        }
    }
}

/// Reads a quoted-string field at `pos`.
fn parse_str_field(t: &Vec<u8>, pos: usize, lit: &Vec<u8>) -> (r: Option<(Vec<u8>, usize)>)
    requires
        pos <= t@.len(),
    ensures
        match r {
            Some(p) => (match dec_str_field(t@.skip(pos as int), lit@) {
                Some(q) => q.0 == p.0@ && q.1 == (p.1 - pos) as nat && pos < p.1 <= t@.len(),
                None => false,
            }),
            None => dec_str_field(t@.skip(pos as int), lit@) is None,
        },
{
    proof {
        reveal(dec_str_field);
    }
    let ghost s = t@.skip(pos as int);
    match parse_lit(t, pos, lit) {
        Some(e1) => {
            proof {
                assert(tail(s, (e1 - pos) as nat) =~= t@.skip(e1 as int));
            }
            match parse_str(t, e1) {
                Some((v, e2)) => Some((v, e2)),
                None => None,
            }
        },
        None => None,
    }
}

/// Reads an unsigned-number field at `pos`.
fn parse_u64_field(t: &Vec<u8>, pos: usize, lit: &Vec<u8>) -> (r: Option<(u64, usize)>)
    requires
        pos <= t@.len(),
    ensures
        match r {
            Some(p) => (match dec_u64_field(t@.skip(pos as int), lit@) {
                Some(q) => q.0 == p.0 && q.1 == (p.1 - pos) as nat && pos < p.1 <= t@.len(),
                None => false,
            }),
            None => dec_u64_field(t@.skip(pos as int), lit@) is None,
        },
{
    proof {
        reveal(dec_u64_field);
    }
    let ghost s = t@.skip(pos as int);
    match parse_lit(t, pos, lit) {
        Some(e1) => {
            proof {
                assert(tail(s, (e1 - pos) as nat) =~= t@.skip(e1 as int));
            }
            match parse_u64(t, e1) {
                Some((v, e2)) => Some((v, e2)),
                None => None,
            }
        },
        None => None,
    }
}

/// Reads a sheet's scalar fields at `pos`, leaving the frame list empty.
#[verifier::rlimit(100)]
fn parse_sheet_head(t: &Vec<u8>, pos: usize) -> (r: Option<(SpriteSheetInfo, usize)>)
    requires
        pos <= t@.len(),
    ensures
        match r {
            Some(p) => (match dec_sheet_head(t@.skip(pos as int)) {
                Some(q) => q.0 == p.0@ && q.1 == (p.1 - pos) as nat && pos < p.1 <= t@.len(),
                None => false,
            }),
            None => dec_sheet_head(t@.skip(pos as int)) is None,
        },
{
    proof {
        reveal(dec_sheet_head);
    }
    let ghost s = t@.skip(pos as int);
    let l1 = lit_id_open_v();
    let l2 = lit_image_path_v();
    let l3 = lit_sheet_width_v();
    let l4 = lit_sheet_height_v();
    let l5 = lit_tile_width_v();
    let l6 = lit_tile_height_v();
    let l7 = lit_columns_v();
    let l8 = lit_rows_v();
    match parse_str_field(t, pos, &l1) {
        Some((id, e1)) => {
            proof {
                assert(tail(s, (e1 - pos) as nat) =~= t@.skip(e1 as int));
            }
            match parse_str_field(t, e1, &l2) {
                Some((image_path, e2)) => {
                    proof {
                        assert(tail(s, (e2 - pos) as nat) =~= t@.skip(e2 as int));
                    }
                    match parse_u64_field(t, e2, &l3) {
                        Some((w, e3)) => {
                            proof {
                                assert(tail(s, (e3 - pos) as nat) =~= t@.skip(e3 as int));
                            }
                            match parse_u64_field(t, e3, &l4) {
                                Some((h, e4)) => {
                                    proof {
                                        assert(tail(s, (e4 - pos) as nat) =~= t@.skip(e4 as int));
                                    }
                                    match parse_u64_field(t, e4, &l5) {
                                        Some((tw, e5)) => {
                                            proof {
                                                assert(tail(s, (e5 - pos) as nat) =~= t@.skip(
                                                    e5 as int,
                                                ));
                                            }
                                            match parse_u64_field(t, e5, &l6) {
                                                Some((th, e6)) => {
                                                    proof {
                                                        assert(tail(s, (e6 - pos) as nat) =~= t@
                                                            .skip(e6 as int));
                                                    }
                                                    match parse_u64_field(t, e6, &l7) {
                                                        Some((cols, e7)) => {
                                                            proof {
                                                                assert(tail(s, (e7 - pos) as nat)
                                                                    =~= t@.skip(e7 as int));
                                                            }
                                                            match parse_u64_field(t, e7, &l8) {
                                                                Some((rows, e8)) => {
                                                                    let info = SpriteSheetInfo {
                                                                        id,
                                                                        image_path,
                                                                        sprite_sheet_width: w,
                                                                        sprite_sheet_height: h,
                                                                        tile_width: tw,
                                                                        tile_height: th,
                                                                        columns: cols,
                                                                        rows,
                                                                        frames: Vec::new(),
                                                                    };
                                                                    proof {
                                                                        assert(frame_views(
                                                                            info.frames@,
                                                                        ) =~= Seq::<
                                                                            FrameView,
                                                                        >::empty());
                                                                        assert(info@ =~= dec_sheet_head(
                                                                            s,
                                                                        )->Some_0.0);
                                                                    }
                                                                    Some((info, e8))
                                                                },
                                                                None => None,
                                                            }
                                                        },
                                                        None => None,
                                                    }
                                                },
                                                None => None,
                                            }
                                        },
                                        None => None,
                                    }
                                },
                                None => None,
                            }
                        },
                        None => None,
                    }
                },
                None => None,
            }
        },
        None => None,
    }
}

/// Reads one sheet at `pos`.
#[verifier::rlimit(100)]
fn parse_sheet(t: &Vec<u8>, pos: usize) -> (r: Option<(SpriteSheetInfo, usize)>)
    requires
        pos <= t@.len(),
    ensures
        match r {
            Some(p) => (match dec_sheet(t@.skip(pos as int)) {
                Some(q) => q.0 == p.0@ && q.1 == (p.1 - pos) as nat && pos < p.1 <= t@.len(),
                None => false,
            }),
            None => dec_sheet(t@.skip(pos as int)) is None,
        },
{
    proof {
        reveal(dec_sheet);
    }
    let ghost s = t@.skip(pos as int);
    match parse_sheet_head(t, pos) {
        Some((mut info, e1)) => {
            proof {
                assert(tail(s, (e1 - pos) as nat) =~= t@.skip(e1 as int));
            }
            let l9 = lit_frames_open_v();
            match parse_lit(t, e1, &l9) {
                Some(e2) => {
                    proof {
                        assert(tail(s, (e2 - pos) as nat) =~= t@.skip(e2 as int));
                    }
                    match parse_frame_list(t, e2) {
                        Some((frames, e3)) => {
                            proof {
                                assert(tail(s, (e3 - pos) as nat) =~= t@.skip(e3 as int));
                            }
                            let l10 = lit_obj_close_v();
                            match parse_lit(t, e3, &l10) {
                                Some(e4) => {
                                    let ghost head = info@;
                                    info.frames = frames;
                                    proof {
                                        assert(info@ =~= dec_sheet(s)->Some_0.0);
                                    }
                                    Some((info, e4))
                                },
                                None => None,
                            }
                        },
                        None => None,
                    }
                },
                None => None,
            }
        },
        None => None,
    }
}

/// Reads the continuation of the sheet list at `pos`.
fn parse_sheet_rest(t: &Vec<u8>, pos: usize) -> (r: Option<(Vec<SpriteSheetInfo>, usize)>)
    requires
        pos <= t@.len(),
    ensures
        match r {
            Some(p) => (match dec_sheet_rest(t@.skip(pos as int)) {
                Some(q) => q.0 == sheet_views(p.0@) && q.1 == (p.1 - pos) as nat && pos < p.1
                    <= t@.len(),
                None => false,
            }),
            None => dec_sheet_rest(t@.skip(pos as int)) is None,
        },
    decreases t@.len() - pos,
{
    let ghost s = t@.skip(pos as int);
    if pos == t.len() {
        return None;
    }
    proof {
        assert(s[0] == t@[pos as int]);
    }
    if t[pos] == 93 {
        let v: Vec<SpriteSheetInfo> = Vec::new();
        proof {
            assert(sheet_views(v@) =~= Seq::<SheetView>::empty());
        }
        Some((v, pos + 1))
    } else if t[pos] == 44 {
        proof {
            assert(tail(s, 1) =~= t@.skip(pos + 1));
        }
        match parse_sheet(t, pos + 1) {
            Some((info, e1)) => {
                proof {
                    assert(tail(s, (e1 - pos) as nat) =~= t@.skip(e1 as int));
                }
                match parse_sheet_rest(t, e1) {
                    Some((mut v, e2)) => {
                        let ghost prev = v@;
                        let ghost iview = info@;
                        v.insert(0, info);
                        proof {
                            assert(v@ =~= seq![info] + prev);
                            assert forall|x: int| 0 <= x < v@.len() implies sheet_views(v@)[x] == (
                            seq![iview] + sheet_views(prev))[x] by {
                                assert(sheet_views(v@)[x] == v@[x]@);
                                if x > 0 {
                                    assert(sheet_views(prev)[x - 1] == prev[x - 1]@);
                                }
                            }
                            assert(sheet_views(v@) =~= seq![iview] + sheet_views(prev));
                        }
                        Some((v, e2))
                    },
                    None => None,
                }
            },
            None => None,
        }
    } else {
        None
    }
}

/// Reads the body of the sheet list at `pos`.
fn parse_sheet_list(t: &Vec<u8>, pos: usize) -> (r: Option<(Vec<SpriteSheetInfo>, usize)>)
    requires
        pos <= t@.len(),
    ensures
        match r {
            Some(p) => (match dec_sheet_list(t@.skip(pos as int)) {
                Some(q) => q.0 == sheet_views(p.0@) && q.1 == (p.1 - pos) as nat && pos < p.1
                    <= t@.len(),
                None => false,
            }),
            None => dec_sheet_list(t@.skip(pos as int)) is None,
        },
{
    let ghost s = t@.skip(pos as int);
    if pos == t.len() {
        return None;
    }
    proof {
        assert(s[0] == t@[pos as int]);
    }
    if t[pos] == 93 {
        let v: Vec<SpriteSheetInfo> = Vec::new();
        proof {
            assert(sheet_views(v@) =~= Seq::<SheetView>::empty());
        }
        Some((v, pos + 1))
    } else {
        match parse_sheet(t, pos) {
            Some((info, e1)) => {
                proof {
                    assert(tail(s, (e1 - pos) as nat) =~= t@.skip(e1 as int));
                }
                match parse_sheet_rest(t, e1) {
                    Some((mut v, e2)) => {
                        let ghost prev = v@;
                        let ghost iview = info@;
                        v.insert(0, info);
                        proof {
                            assert(v@ =~= seq![info] + prev);
                            assert forall|x: int| 0 <= x < v@.len() implies sheet_views(v@)[x] == (
                            seq![iview] + sheet_views(prev))[x] by {
                                assert(sheet_views(v@)[x] == v@[x]@);
                                if x > 0 {
                                    assert(sheet_views(prev)[x - 1] == prev[x - 1]@);
                                }
                            }
                            assert(sheet_views(v@) =~= seq![iview] + sheet_views(prev));
                        }
                        Some((v, e2))
                    },
                    None => None,
                }
            },
            None => None,
        }
    }
}

/// Reads a whole catalog document starting at the first byte.
fn parse_catalog(t: &Vec<u8>) -> (r: Option<(SpriteSheetsData, usize)>)
    ensures
        match r {
            Some(p) => (match dec_catalog(t@) {
                Some(q) => q.0 == p.0@ && q.1 == p.1 as nat && 0 < p.1 <= t@.len(),
                None => false,
            }),
            None => dec_catalog(t@) is None,
        },
{
    let ghost s = t@;
    proof {
        assert(t@.skip(0) =~= t@);
    }
    let l1 = lit_catalog_open_v();
    match parse_lit(t, 0, &l1) {
        Some(e1) => {
            proof {
                assert(tail(s, e1 as nat) =~= t@.skip(e1 as int));
            }
            match parse_sheet_list(t, e1) {
                Some((sheets, e2)) => {
                    proof {
                        assert(tail(s, e2 as nat) =~= t@.skip(e2 as int));
                    }
                    let l2 = lit_obj_close_v();
                    match parse_lit(t, e2, &l2) {
                        Some(e3) => {
                            let data = SpriteSheetsData { sheets };
                            Some((data, e3))
                        },
                        None => None,
                    }
                },
                None => None,
            }
        },
        None => None,
    }
}


/// Escaping distributes over appending one byte.
proof fn lemma_esc_snoc(a: Seq<u8>, x: u8)
    ensures
        esc(a.push(x)) == esc(a) + esc_byte(x),
    decreases a.len(),
{
    if a.len() == 0 {
        assert(a.push(x) =~= seq![x]);
        assert(a.push(x).skip(1) =~= Seq::<u8>::empty());
        assert(esc(Seq::<u8>::empty()) =~= Seq::<u8>::empty());
        assert(esc(a.push(x)) =~= esc_byte(x));
        assert(esc(a) + esc_byte(x) =~= esc_byte(x));
    } else {
        lemma_esc_snoc(a.skip(1), x);
        assert(a.push(x).skip(1) =~= a.skip(1).push(x));
        assert(a.push(x)[0] == a[0]);
        assert(esc(a.push(x)) == esc_byte(a[0]) + esc(a.skip(1).push(x)));
        assert(esc_byte(a[0]) + (esc(a.skip(1)) + esc_byte(x)) =~= (esc_byte(a[0]) + esc(
            a.skip(1),
        )) + esc_byte(x));
    }
}

/// Appends the digits of `n`.
fn write_nat(out: &mut Vec<u8>, n: u64)
    ensures
        final(out)@ == old(out)@ + enc_nat(n as nat),
    decreases n,
{
    if n < 10 {
        out.push(48 + (n as u8));
        proof {
            assert(out@ =~= old(out)@ + enc_nat(n as nat));
        }
    } else {
        write_nat(out, n / 10);
        out.push(48 + ((n % 10) as u8));
        proof {
            assert(enc_nat(n as nat) == enc_nat(n as nat / 10).push((48 + n as nat % 10) as u8));
            assert(out@ =~= old(out)@ + enc_nat(n as nat));
        }
    }
}

/// Appends the encoding of a signed number.
fn write_i64(out: &mut Vec<u8>, n: i64)
    ensures
        final(out)@ == old(out)@ + enc_i64(n),
{
    if n >= 0 {
        write_nat(out, n as u64);
        proof {
            assert(out@ =~= old(out)@ + enc_i64(n));
        }
    } else {
        out.push(45);
        let m: u64 = if n == i64::MIN {
            9223372036854775808u64
        } else {
            (-n) as u64
        };
        proof {
            assert(m as nat == (-(n as int)) as nat);
        }
        write_nat(out, m);
        proof {
            assert(out@ =~= old(out)@ + enc_i64(n));
        }
    }
}

/// Appends the encoding of a byte string, escaping quotes and backslashes.
fn write_str(out: &mut Vec<u8>, s: &Vec<u8>)
    ensures
        final(out)@ == old(out)@ + enc_str(s@),
{
    out.push(34);
    let ghost start = out@;
    let mut i: usize = 0;
    while i < s.len()
        invariant
            0 <= i <= s@.len(),
            out@ == start + esc(s@.take(i as int)),
            start == old(out)@ + seq![34u8],
        decreases s@.len() - i,
    {
        let b = s[i];
        if b == 34 || b == 92 {
            out.push(92);
            out.push(b);
        } else {
            out.push(b);
        }
        proof {
            assert(s@.take(i + 1) =~= s@.take(i as int).push(s@[i as int]));
            lemma_esc_snoc(s@.take(i as int), s@[i as int]);
            assert(out@ =~= start + esc(s@.take(i + 1)));
        }
        i = i + 1;
    }
    out.push(34);
    proof {
        assert(s@.take(s@.len() as int) =~= s@);
        assert(out@ =~= old(out)@ + enc_str(s@));
    }
}

/// Appends the encoding of a coordinate vector.
fn write_vec2(out: &mut Vec<u8>, v: Vec2i)
    ensures
        final(out)@ == old(out)@ + enc_vec2(v),
{
    write_i64(out, v.x);
    out.push(44);
    write_i64(out, v.y);
    proof {
        assert(out@ =~= old(out)@ + enc_vec2(v));
    }
}

/// Appends the encoding of one region rectangle.
fn write_rect(out: &mut Vec<u8>, sz: Vec2i, of: Vec2i)
    ensures
        final(out)@ == old(out)@ + enc_rect(sz, of),
{
    proof {
        reveal(enc_rect);
    }
    let mut l = lit_rect_open_v();
    out.append(&mut l);
    write_vec2(out, sz);
    let mut l2 = lit_offset_open_v();
    out.append(&mut l2);
    write_vec2(out, of);
    let mut l3 = lit_rect_close_v();
    out.append(&mut l3);
    proof {
        assert(out@ =~= old(out)@ + enc_rect(sz, of));
    }
}

/// Appends the continuation of a rectangle list from position `i` on.
fn write_pairs_rest(out: &mut Vec<u8>, v: &Vec<(Vec2i, Vec2i)>, i: usize)
    requires
        i <= v@.len(),
    ensures
        final(out)@ == old(out)@ + enc_rect_rest(v@.skip(i as int)),
    decreases v@.len() - i,
{
    if i == v.len() {
        out.push(93);
        proof {
            assert(v@.skip(i as int).len() == 0);
            assert(out@ =~= old(out)@ + enc_rect_rest(v@.skip(i as int)));
        }
    } else {
        out.push(44);
        let (sz, of) = v[i];
        write_rect(out, sz, of);
        write_pairs_rest(out, v, i + 1);
        proof {
            let rest = v@.skip(i as int);
            assert(rest[0] == v@[i as int]);
            assert(rest.skip(1) =~= v@.skip(i + 1));
            assert(out@ =~= old(out)@ + enc_rect_rest(rest));
        }
    }
}

/// Appends the body of a rectangle list.
fn write_pairs_list(out: &mut Vec<u8>, v: &Vec<(Vec2i, Vec2i)>)
    ensures
        final(out)@ == old(out)@ + enc_rect_list(v@),
{
    if v.len() == 0 {
        out.push(93);
        proof {
            assert(out@ =~= old(out)@ + enc_rect_list(v@));
        }
    } else {
        let (sz, of) = v[0];
        write_rect(out, sz, of);
        write_pairs_rest(out, v, 1);
        proof {
            assert(v@.skip(1) =~= v@.skip(1));
            assert(out@ =~= old(out)@ + enc_rect_list(v@));
        }
    }
}

/// The codec pairs of a frame's hit regions, as an owned list.
fn hits_to_pairs(v: &Vec<HitBox>) -> (r: Vec<(Vec2i, Vec2i)>)
    ensures
        r@ == hit_pairs(v@),
{
    let mut r: Vec<(Vec2i, Vec2i)> = Vec::new();
    let mut i: usize = 0;
    while i < v.len()
        invariant
            0 <= i <= v@.len(),
            r@ == hit_pairs(v@).take(i as int),
        decreases v@.len() - i,
    {
        r.push((v[i].size, v[i].offset));
        proof {
            assert(r@ =~= hit_pairs(v@).take(i + 1));
        }
        i = i + 1;
    }
    proof {
        assert(hit_pairs(v@).take(v@.len() as int) =~= hit_pairs(v@));
    }
    r
}

/// The codec pairs of a frame's hurt regions, as an owned list.
fn hurts_to_pairs(v: &Vec<HurtBox>) -> (r: Vec<(Vec2i, Vec2i)>)
    ensures
        r@ == hurt_pairs(v@),
{
    let mut r: Vec<(Vec2i, Vec2i)> = Vec::new();
    let mut i: usize = 0;
    while i < v.len()
        invariant
            0 <= i <= v@.len(),
            r@ == hurt_pairs(v@).take(i as int),
        decreases v@.len() - i,
    {
        r.push((v[i].size, v[i].offset));
        proof {
            assert(r@ =~= hurt_pairs(v@).take(i + 1));
        }
        i = i + 1;
    }
    proof {
        assert(hurt_pairs(v@).take(v@.len() as int) =~= hurt_pairs(v@));
    }
    r
}

/// Appends the encoding of one frame.
fn write_frame(out: &mut Vec<u8>, f: &FrameData)
    ensures
        final(out)@ == old(out)@ + enc_frame(f@),
{
    proof {
        reveal(enc_frame);
    }
    let mut l = lit_frame_open_v();
    out.append(&mut l);
    let hp = hits_to_pairs(&f.hit_boxes);
    write_pairs_list(out, &hp);
    let mut l2 = lit_hurt_open_v();
    out.append(&mut l2);
    let up = hurts_to_pairs(&f.hurt_boxes);
    write_pairs_list(out, &up);
    let mut l3 = lit_obj_close_v();
    out.append(&mut l3);
    proof {
        assert(out@ =~= old(out)@ + enc_frame(f@));
    }
}

/// Appends the continuation of a frame list from position `i` on.
fn write_frames_rest(out: &mut Vec<u8>, v: &Vec<FrameData>, i: usize)
    requires
        i <= v@.len(),
    ensures
        final(out)@ == old(out)@ + enc_frame_rest(frame_views(v@).skip(i as int)),
    decreases v@.len() - i,
{
    if i == v.len() {
        out.push(93);
        proof {
            assert(frame_views(v@).skip(i as int).len() == 0);
            assert(out@ =~= old(out)@ + enc_frame_rest(frame_views(v@).skip(i as int)));
        }
    } else {
        out.push(44);
        write_frame(out, &v[i]);
        write_frames_rest(out, v, i + 1);
        proof {
            let rest = frame_views(v@).skip(i as int);
            assert(rest[0] == frame_views(v@)[i as int]);
            assert(frame_views(v@)[i as int] == v@[i as int]@);
            assert(rest.skip(1) =~= frame_views(v@).skip(i + 1));
            assert(out@ =~= old(out)@ + enc_frame_rest(rest));
        }
    }
}

/// Appends the body of a frame list.
fn write_frames_list(out: &mut Vec<u8>, v: &Vec<FrameData>)
    ensures
        final(out)@ == old(out)@ + enc_frame_list(frame_views(v@)),
{
    if v.len() == 0 {
        out.push(93);
        proof {
            assert(frame_views(v@).len() == 0);
            assert(out@ =~= old(out)@ + enc_frame_list(frame_views(v@)));
        }
    } else {
        write_frame(out, &v[0]);
        write_frames_rest(out, v, 1);
        proof {
            assert(frame_views(v@)[0] == v@[0]@);
            assert(frame_views(v@).skip(1) =~= frame_views(v@).skip(1));
            assert(out@ =~= old(out)@ + enc_frame_list(frame_views(v@)));
        }
    }
}

/// Appends a quoted-string field.
fn write_str_field(out: &mut Vec<u8>, lit: &Vec<u8>, s: &Vec<u8>)
    ensures
        final(out)@ == old(out)@ + enc_str_field(lit@, s@),
{
    proof {
        reveal(enc_str_field);
    }
    let mut l = clone_bytes(lit);
    out.append(&mut l);
    write_str(out, s);
    proof {
        assert(out@ =~= old(out)@ + enc_str_field(lit@, s@));
    }
}

/// Appends an unsigned-number field.
fn write_u64_field(out: &mut Vec<u8>, lit: &Vec<u8>, n: u64)
    ensures
        final(out)@ == old(out)@ + enc_u64_field(lit@, n),
{
    proof {
        reveal(enc_u64_field);
    }
    let mut l = clone_bytes(lit);
    out.append(&mut l);
    write_nat(out, n);
    proof {
        assert(out@ =~= old(out)@ + enc_u64_field(lit@, n));
    }
}

/// Appends the encoding of one sheet.
#[verifier::rlimit(100)]
fn write_sheet(out: &mut Vec<u8>, s: &SpriteSheetInfo)
    ensures
        final(out)@ == old(out)@ + enc_sheet(s@),
{
    proof {
        reveal(enc_sheet);
        reveal(enc_sheet_head);
    }
    let l1 = lit_id_open_v();
    write_str_field(out, &l1, &s.id);
    let l2 = lit_image_path_v();
    write_str_field(out, &l2, &s.image_path);
    let l3 = lit_sheet_width_v();
    write_u64_field(out, &l3, s.sprite_sheet_width);
    let l4 = lit_sheet_height_v();
    write_u64_field(out, &l4, s.sprite_sheet_height);
    let l5 = lit_tile_width_v();
    write_u64_field(out, &l5, s.tile_width);
    let l6 = lit_tile_height_v();
    write_u64_field(out, &l6, s.tile_height);
    let l7 = lit_columns_v();
    write_u64_field(out, &l7, s.columns);
    let l8 = lit_rows_v();
    write_u64_field(out, &l8, s.rows);
    let mut l9 = lit_frames_open_v();
    out.append(&mut l9);
    write_frames_list(out, &s.frames);
    let mut l10 = lit_obj_close_v();
    out.append(&mut l10);
    proof {
        assert(out@ =~= old(out)@ + enc_sheet(s@));
    }
}

/// Appends the continuation of the sheet list from position `i` on.
fn write_sheets_rest(out: &mut Vec<u8>, v: &Vec<SpriteSheetInfo>, i: usize)
    requires
        i <= v@.len(),
    ensures
        final(out)@ == old(out)@ + enc_sheet_rest(sheet_views(v@).skip(i as int)),
    decreases v@.len() - i,
{
    if i == v.len() {
        out.push(93);
        proof {
            assert(sheet_views(v@).skip(i as int).len() == 0);
            assert(out@ =~= old(out)@ + enc_sheet_rest(sheet_views(v@).skip(i as int)));
        }
    } else {
        out.push(44);
        write_sheet(out, &v[i]);
        write_sheets_rest(out, v, i + 1);
        proof {
            let rest = sheet_views(v@).skip(i as int);
            assert(rest[0] == sheet_views(v@)[i as int]);
            assert(sheet_views(v@)[i as int] == v@[i as int]@);
            assert(rest.skip(1) =~= sheet_views(v@).skip(i + 1));
            assert(out@ =~= old(out)@ + enc_sheet_rest(rest));
        }
    }
}

/// Appends the body of the sheet list.
fn write_sheets_list(out: &mut Vec<u8>, v: &Vec<SpriteSheetInfo>)
    ensures
        final(out)@ == old(out)@ + enc_sheet_list(sheet_views(v@)),
{
    if v.len() == 0 {
        out.push(93);
        proof {
            assert(sheet_views(v@).len() == 0);
            assert(out@ =~= old(out)@ + enc_sheet_list(sheet_views(v@)));
        }
    } else {
        write_sheet(out, &v[0]);
        write_sheets_rest(out, v, 1);
        proof {
            assert(sheet_views(v@)[0] == v@[0]@);
            assert(out@ =~= old(out)@ + enc_sheet_list(sheet_views(v@)));
        }
    }
}

/// Serializes the whole catalog into its canonical byte form, ready to be
/// written to the persisted file in one piece.
pub fn save_state_system(catalog: &SpriteSheetsData) -> (r: Vec<u8>)
    ensures
        r@ == enc_catalog(catalog@),
{
    let mut out: Vec<u8> = Vec::new();
    let mut l1 = lit_catalog_open_v();
    out.append(&mut l1);
    write_sheets_list(&mut out, &catalog.sheets);
    let mut l2 = lit_obj_close_v();
    out.append(&mut l2);
    proof {
        assert(out@ =~= Seq::<u8>::empty() + enc_catalog(catalog@));
        assert(Seq::<u8>::empty() + enc_catalog(catalog@) =~= enc_catalog(catalog@));
    }
    out
}

/// Restores a catalog from the bytes of the persisted file.
///
/// Exactly the canonical encodings are accepted: loading succeeds on
/// `save_state_system`'s output for every well-formed catalog and returns
/// that catalog unchanged, and whenever loading succeeds the input was the
/// canonical encoding of the returned catalog.  Every other input answers
/// `Malformed`.  (Reading the file itself happens outside this crate; a
/// failure there is reported as `Io` by the caller.)
pub fn load_state_system(bytes: &Vec<u8>) -> (r: Result<SpriteSheetsData, PersistenceError>)
    ensures
        r matches Ok(c) ==> enc_catalog(c@) == bytes@ && wf_catalog(c@),
        forall|c: Seq<SheetView>|
            wf_catalog(c) && bytes@ == enc_catalog(c) ==> (r matches Ok(v) && v@ == c),
        r matches Err(e) ==> e == PersistenceError::Malformed,
{
    match parse_catalog(bytes) {
        Some((data, end)) => {
            if end != bytes.len() {
                proof {
                    assert forall|c: Seq<SheetView>|
                        !(wf_catalog(c) && bytes@ == enc_catalog(c)) by {
                        if wf_catalog(c) && bytes@ == enc_catalog(c) {
                            lemma_dec_catalog(c, Seq::empty());
                            assert(enc_catalog(c) + Seq::<u8>::empty() =~= enc_catalog(c));
                        }
                    }
                }
                return Err(PersistenceError::Malformed);
            }
            let reencoded = save_state_system(&data);
            if !crate::sheets::bytes_eq(&reencoded, bytes) {
                proof {
                    assert forall|c: Seq<SheetView>|
                        !(wf_catalog(c) && bytes@ == enc_catalog(c)) by {
                        if wf_catalog(c) && bytes@ == enc_catalog(c) {
                            lemma_dec_catalog(c, Seq::empty());
                            assert(enc_catalog(c) + Seq::<u8>::empty() =~= enc_catalog(c));
                        }
                    }
                }
                return Err(PersistenceError::Malformed);
            }
            if !data.geometry_in_range() {
                proof {
                    assert forall|c: Seq<SheetView>|
                        !(wf_catalog(c) && bytes@ == enc_catalog(c)) by {
                        if wf_catalog(c) && bytes@ == enc_catalog(c) {
                            lemma_dec_catalog(c, Seq::empty());
                            assert(enc_catalog(c) + Seq::<u8>::empty() =~= enc_catalog(c));
                        }
                    }
                }
                return Err(PersistenceError::Malformed);
            }
            proof {
                assert forall|c: Seq<SheetView>|
                    wf_catalog(c) && bytes@ == enc_catalog(c) implies data@ == c by {
                    lemma_dec_catalog(c, Seq::empty());
                    assert(enc_catalog(c) + Seq::<u8>::empty() =~= enc_catalog(c));
                }
            }
            Ok(data)
        },
        None => {
            proof {
                assert forall|c: Seq<SheetView>| !(wf_catalog(c) && bytes@ == enc_catalog(c)) by {
                    if wf_catalog(c) && bytes@ == enc_catalog(c) {
                        lemma_dec_catalog(c, Seq::empty());
                        assert(enc_catalog(c) + Seq::<u8>::empty() =~= enc_catalog(c));
                    }
                }
            }
            Err(PersistenceError::Malformed)
        },
    }
}

} // verus!
