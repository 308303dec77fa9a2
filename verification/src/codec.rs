//! The message codec: JSON text frames for the wire protocol.
//!
//! `encode_msg` lays a message out as one canonical JSON object — the
//! `type` tag first, then the variant's fields in order, numbers in
//! plain decimal, strings with `"`, `\\` and control bytes escaped —
//! and `decode_msg` parses exactly that layout back. Decoding is the
//! inverse of encoding on every message (`lemma_codec_round_trip`);
//! frames that do not parse are reported as `None` and the connection
//! handler drops them silently.

use vstd::prelude::*;
use crate::msg::CellView;
use crate::msg::ClientMessage;
use crate::msg::MsgView;
use crate::msg::TableCellClientView;
use crate::msg::table_payload_view;

verus! {

/// Whether `prefix` starts `s`.
pub open spec fn starts_with(s: Seq<u8>, prefix: Seq<u8>) -> bool {
    s.len() >= prefix.len() && s.subrange(0, prefix.len() as int) == prefix
}

/// Parse a fixed literal off the front of `s`: the number of bytes
/// consumed, or `None` when `s` does not start with it.
pub open spec fn spec_parse_lit(s: Seq<u8>, lit: Seq<u8>) -> Option<nat> {
    if starts_with(s, lit) {
        Option::Some(lit.len())
    } else {
        Option::None
    }
}

/// Consuming a literal off `lit + rest` leaves exactly `rest`.
pub proof fn lemma_parse_lit_round_trip(lit: Seq<u8>, rest: Seq<u8>)
    ensures
        spec_parse_lit(lit + rest, lit) == Option::Some(lit.len()),
        (lit + rest).skip(lit.len() as int) == rest,
{
    assert((lit + rest).subrange(0, lit.len() as int) =~= lit);
    assert((lit + rest).skip(lit.len() as int) =~= rest);
}

/// Append a byte string to the output.
fn push_bytes(out: &mut Vec<u8>, bytes: &Vec<u8>)
    ensures
        final(out)@ == old(out)@ + bytes@,
{
    let mut i: usize = 0;
    proof {
        assert(out@ =~= old(out)@ + bytes@.subrange(0, 0));
    }
    while i < bytes.len()
        invariant
            i <= bytes@.len(),
            out@ == old(out)@ + bytes@.subrange(0, i as int),
        decreases bytes@.len() - i,
    {
        out.push(bytes[i]);
        i = i + 1;
        proof {
            assert(out@ =~= old(out)@ + bytes@.subrange(0, i as int));
        }
    }
    proof {
        assert(bytes@.subrange(0, bytes@.len() as int) =~= bytes@);
    }
}

/// Match a fixed literal at `pos`: the position after it, or `None`.
fn match_lit(s: &[u8], pos: usize, lit: &Vec<u8>) -> (r: Option<usize>)
    requires
        pos <= s@.len(),
    ensures
        match r {
            Option::Some(p) => p == pos + lit@.len() && p <= s@.len()
                && spec_parse_lit(s@.skip(pos as int), lit@) == Option::Some(lit@.len()),
            Option::None => spec_parse_lit(s@.skip(pos as int), lit@) is None,
        },
{
    if s.len() - pos < lit.len() {
        proof {
            assert(s@.skip(pos as int).len() < lit@.len());
        }
        return Option::None;
    }
    proof {
        assert(s@.len() <= usize::MAX);
    }
    let mut i: usize = 0;
    while i < lit.len()
        invariant
            i <= lit@.len(),
            pos + lit@.len() <= s@.len(),
            s@.len() <= usize::MAX,
            forall|j: int| 0 <= j < i as int ==>
                s@.skip(pos as int)[j] == lit@[j],
        decreases lit@.len() - i,
    {
        if s[pos + i] != lit[i] {
            proof {
                assert(s@.skip(pos as int)[i as int] == s@[pos + i]);
                assert(s@.skip(pos as int).subrange(0, lit@.len() as int)[i as int]
                    == s@.skip(pos as int)[i as int]);
                assert(!starts_with(s@.skip(pos as int), lit@));
            }
            return Option::None;
        }
        i = i + 1;
    }
    proof {
        assert(s@.skip(pos as int).subrange(0, lit@.len() as int) =~= lit@);
    }
    Option::Some(pos + lit.len())
}

/// The bytes of `{"type":"insert","client_id":`.
#[verifier::opaque]
pub open spec fn lit_hdr_insert() -> Seq<u8> {
    seq![123u8, 34u8, 116u8, 121u8, 112u8, 101u8, 34u8, 58u8, 34u8, 105u8, 110u8, 115u8, 101u8, 114u8, 116u8, 34u8, 44u8, 34u8, 99u8, 108u8, 105u8, 101u8, 110u8, 116u8, 95u8, 105u8, 100u8, 34u8, 58u8]
}

fn lit_vec_hdr_insert() -> (v: Vec<u8>)
    ensures
        v@ == lit_hdr_insert(),
{
    let mut v: Vec<u8> = Vec::new();
    v.push(123);
    v.push(34);
    v.push(116);
    v.push(121);
    v.push(112);
    v.push(101);
    v.push(34);
    v.push(58);
    v.push(34);
    v.push(105);
    v.push(110);
    v.push(115);
    v.push(101);
    v.push(114);
    v.push(116);
    v.push(34);
    v.push(44);
    v.push(34);
    v.push(99);
    v.push(108);
    v.push(105);
    v.push(101);
    v.push(110);
    v.push(116);
    v.push(95);
    v.push(105);
    v.push(100);
    v.push(34);
    v.push(58);
    proof {
        reveal(lit_hdr_insert);
        assert(v@ =~= lit_hdr_insert());
    }
    v
}

/// The bytes of `{"type":"delete","client_id":`.
#[verifier::opaque]
pub open spec fn lit_hdr_delete() -> Seq<u8> {
    seq![123u8, 34u8, 116u8, 121u8, 112u8, 101u8, 34u8, 58u8, 34u8, 100u8, 101u8, 108u8, 101u8, 116u8, 101u8, 34u8, 44u8, 34u8, 99u8, 108u8, 105u8, 101u8, 110u8, 116u8, 95u8, 105u8, 100u8, 34u8, 58u8]
}

fn lit_vec_hdr_delete() -> (v: Vec<u8>)
    ensures
        v@ == lit_hdr_delete(),
{
    let mut v: Vec<u8> = Vec::new();
    v.push(123);
    v.push(34);
    v.push(116);
    v.push(121);
    v.push(112);
    v.push(101);
    v.push(34);
    v.push(58);
    v.push(34);
    v.push(100);
    v.push(101);
    v.push(108);
    v.push(101);
    v.push(116);
    v.push(101);
    v.push(34);
    v.push(44);
    v.push(34);
    v.push(99);
    v.push(108);
    v.push(105);
    v.push(101);
    v.push(110);
    v.push(116);
    v.push(95);
    v.push(105);
    v.push(100);
    v.push(34);
    v.push(58);
    proof {
        reveal(lit_hdr_delete);
        assert(v@ =~= lit_hdr_delete());
    }
    v
}

/// The bytes of `{"type":"replace","client_id":`.
#[verifier::opaque]
pub open spec fn lit_hdr_replace() -> Seq<u8> {
    seq![123u8, 34u8, 116u8, 121u8, 112u8, 101u8, 34u8, 58u8, 34u8, 114u8, 101u8, 112u8, 108u8, 97u8, 99u8, 101u8, 34u8, 44u8, 34u8, 99u8, 108u8, 105u8, 101u8, 110u8, 116u8, 95u8, 105u8, 100u8, 34u8, 58u8]
}

fn lit_vec_hdr_replace() -> (v: Vec<u8>)
    ensures
        v@ == lit_hdr_replace(),
{
    let mut v: Vec<u8> = Vec::new();
    v.push(123);
    v.push(34);
    v.push(116);
    v.push(121);
    v.push(112);
    v.push(101);
    v.push(34);
    v.push(58);
    v.push(34);
    v.push(114);
    v.push(101);
    v.push(112);
    v.push(108);
    v.push(97);
    v.push(99);
    v.push(101);
    v.push(34);
    v.push(44);
    v.push(34);
    v.push(99);
    v.push(108);
    v.push(105);
    v.push(101);
    v.push(110);
    v.push(116);
    v.push(95);
    v.push(105);
    v.push(100);
    v.push(34);
    v.push(58);
    proof {
        reveal(lit_hdr_replace);
        assert(v@ =~= lit_hdr_replace());
    }
    v
}

/// The bytes of `{"type":"insert_rows","client_id":`.
#[verifier::opaque]
pub open spec fn lit_hdr_insert_rows() -> Seq<u8> {
    seq![123u8, 34u8, 116u8, 121u8, 112u8, 101u8, 34u8, 58u8, 34u8, 105u8, 110u8, 115u8, 101u8, 114u8, 116u8, 95u8, 114u8, 111u8, 119u8, 115u8, 34u8, 44u8, 34u8, 99u8, 108u8, 105u8, 101u8, 110u8, 116u8, 95u8, 105u8, 100u8, 34u8, 58u8]
}

fn lit_vec_hdr_insert_rows() -> (v: Vec<u8>)
    ensures
        v@ == lit_hdr_insert_rows(),
{
    let mut v: Vec<u8> = Vec::new();
    v.push(123);
    v.push(34);
    v.push(116);
    v.push(121);
    v.push(112);
    v.push(101);
    v.push(34);
    v.push(58);
    v.push(34);
    v.push(105);
    v.push(110);
    v.push(115);
    v.push(101);
    v.push(114);
    v.push(116);
    v.push(95);
    v.push(114);
    v.push(111);
    v.push(119);
    v.push(115);
    v.push(34);
    v.push(44);
    v.push(34);
    v.push(99);
    v.push(108);
    v.push(105);
    v.push(101);
    v.push(110);
    v.push(116);
    v.push(95);
    v.push(105);
    v.push(100);
    v.push(34);
    v.push(58);
    proof {
        reveal(lit_hdr_insert_rows);
        assert(v@ =~= lit_hdr_insert_rows());
    }
    v
}

/// The bytes of `{"type":"acquire_lock","client_id":`.
#[verifier::opaque]
pub open spec fn lit_hdr_acquire_lock() -> Seq<u8> {
    seq![123u8, 34u8, 116u8, 121u8, 112u8, 101u8, 34u8, 58u8, 34u8, 97u8, 99u8, 113u8, 117u8, 105u8, 114u8, 101u8, 95u8, 108u8, 111u8, 99u8, 107u8, 34u8, 44u8, 34u8, 99u8, 108u8, 105u8, 101u8, 110u8, 116u8, 95u8, 105u8, 100u8, 34u8, 58u8]
}

fn lit_vec_hdr_acquire_lock() -> (v: Vec<u8>)
    ensures
        v@ == lit_hdr_acquire_lock(),
{
    let mut v: Vec<u8> = Vec::new();
    v.push(123);
    v.push(34);
    v.push(116);
    v.push(121);
    v.push(112);
    v.push(101);
    v.push(34);
    v.push(58);
    v.push(34);
    v.push(97);
    v.push(99);
    v.push(113);
    v.push(117);
    v.push(105);
    v.push(114);
    v.push(101);
    v.push(95);
    v.push(108);
    v.push(111);
    v.push(99);
    v.push(107);
    v.push(34);
    v.push(44);
    v.push(34);
    v.push(99);
    v.push(108);
    v.push(105);
    v.push(101);
    v.push(110);
    v.push(116);
    v.push(95);
    v.push(105);
    v.push(100);
    v.push(34);
    v.push(58);
    proof {
        reveal(lit_hdr_acquire_lock);
        assert(v@ =~= lit_hdr_acquire_lock());
    }
    v
}

/// The bytes of `{"type":"release_lock","cell":[`.
#[verifier::opaque]
pub open spec fn lit_hdr_release_lock() -> Seq<u8> {
    seq![123u8, 34u8, 116u8, 121u8, 112u8, 101u8, 34u8, 58u8, 34u8, 114u8, 101u8, 108u8, 101u8, 97u8, 115u8, 101u8, 95u8, 108u8, 111u8, 99u8, 107u8, 34u8, 44u8, 34u8, 99u8, 101u8, 108u8, 108u8, 34u8, 58u8, 91u8]
}

fn lit_vec_hdr_release_lock() -> (v: Vec<u8>)
    ensures
        v@ == lit_hdr_release_lock(),
{
    let mut v: Vec<u8> = Vec::new();
    v.push(123);
    v.push(34);
    v.push(116);
    v.push(121);
    v.push(112);
    v.push(101);
    v.push(34);
    v.push(58);
    v.push(34);
    v.push(114);
    v.push(101);
    v.push(108);
    v.push(101);
    v.push(97);
    v.push(115);
    v.push(101);
    v.push(95);
    v.push(108);
    v.push(111);
    v.push(99);
    v.push(107);
    v.push(34);
    v.push(44);
    v.push(34);
    v.push(99);
    v.push(101);
    v.push(108);
    v.push(108);
    v.push(34);
    v.push(58);
    v.push(91);
    proof {
        reveal(lit_hdr_release_lock);
        assert(v@ =~= lit_hdr_release_lock());
    }
    v
}

/// The bytes of `{"type":"init","client_id":`.
#[verifier::opaque]
pub open spec fn lit_hdr_init() -> Seq<u8> {
    seq![123u8, 34u8, 116u8, 121u8, 112u8, 101u8, 34u8, 58u8, 34u8, 105u8, 110u8, 105u8, 116u8, 34u8, 44u8, 34u8, 99u8, 108u8, 105u8, 101u8, 110u8, 116u8, 95u8, 105u8, 100u8, 34u8, 58u8]
}

fn lit_vec_hdr_init() -> (v: Vec<u8>)
    ensures
        v@ == lit_hdr_init(),
{
    let mut v: Vec<u8> = Vec::new();
    v.push(123);
    v.push(34);
    v.push(116);
    v.push(121);
    v.push(112);
    v.push(101);
    v.push(34);
    v.push(58);
    v.push(34);
    v.push(105);
    v.push(110);
    v.push(105);
    v.push(116);
    v.push(34);
    v.push(44);
    v.push(34);
    v.push(99);
    v.push(108);
    v.push(105);
    v.push(101);
    v.push(110);
    v.push(116);
    v.push(95);
    v.push(105);
    v.push(100);
    v.push(34);
    v.push(58);
    proof {
        reveal(lit_hdr_init);
        assert(v@ =~= lit_hdr_init());
    }
    v
}

/// The bytes of `,"cell":[`.
#[verifier::opaque]
pub open spec fn lit_f_cell() -> Seq<u8> {
    seq![44u8, 34u8, 99u8, 101u8, 108u8, 108u8, 34u8, 58u8, 91u8]
}

fn lit_vec_f_cell() -> (v: Vec<u8>)
    ensures
        v@ == lit_f_cell(),
{
    let mut v: Vec<u8> = Vec::new();
    v.push(44);
    v.push(34);
    v.push(99);
    v.push(101);
    v.push(108);
    v.push(108);
    v.push(34);
    v.push(58);
    v.push(91);
    proof {
        reveal(lit_f_cell);
        assert(v@ =~= lit_f_cell());
    }
    v
}

/// The bytes of `,"index":`.
#[verifier::opaque]
pub open spec fn lit_f_index() -> Seq<u8> {
    seq![44u8, 34u8, 105u8, 110u8, 100u8, 101u8, 120u8, 34u8, 58u8]
}

fn lit_vec_f_index() -> (v: Vec<u8>)
    ensures
        v@ == lit_f_index(),
{
    let mut v: Vec<u8> = Vec::new();
    v.push(44);
    v.push(34);
    v.push(105);
    v.push(110);
    v.push(100);
    v.push(101);
    v.push(120);
    v.push(34);
    v.push(58);
    proof {
        reveal(lit_f_index);
        assert(v@ =~= lit_f_index());
    }
    v
}

/// The bytes of `,"text":"`.
#[verifier::opaque]
pub open spec fn lit_f_text() -> Seq<u8> {
    seq![44u8, 34u8, 116u8, 101u8, 120u8, 116u8, 34u8, 58u8, 34u8]
}

fn lit_vec_f_text() -> (v: Vec<u8>)
    ensures
        v@ == lit_f_text(),
{
    let mut v: Vec<u8> = Vec::new();
    v.push(44);
    v.push(34);
    v.push(116);
    v.push(101);
    v.push(120);
    v.push(116);
    v.push(34);
    v.push(58);
    v.push(34);
    proof {
        reveal(lit_f_text);
        assert(v@ =~= lit_f_text());
    }
    v
}

/// The bytes of `,"start":`.
#[verifier::opaque]
pub open spec fn lit_f_start() -> Seq<u8> {
    seq![44u8, 34u8, 115u8, 116u8, 97u8, 114u8, 116u8, 34u8, 58u8]
}

fn lit_vec_f_start() -> (v: Vec<u8>)
    ensures
        v@ == lit_f_start(),
{
    let mut v: Vec<u8> = Vec::new();
    v.push(44);
    v.push(34);
    v.push(115);
    v.push(116);
    v.push(97);
    v.push(114);
    v.push(116);
    v.push(34);
    v.push(58);
    proof {
        reveal(lit_f_start);
        assert(v@ =~= lit_f_start());
    }
    v
}

/// The bytes of `,"end":`.
#[verifier::opaque]
pub open spec fn lit_f_end() -> Seq<u8> {
    seq![44u8, 34u8, 101u8, 110u8, 100u8, 34u8, 58u8]
}

fn lit_vec_f_end() -> (v: Vec<u8>)
    ensures
        v@ == lit_f_end(),
{
    let mut v: Vec<u8> = Vec::new();
    v.push(44);
    v.push(34);
    v.push(101);
    v.push(110);
    v.push(100);
    v.push(34);
    v.push(58);
    proof {
        reveal(lit_f_end);
        assert(v@ =~= lit_f_end());
    }
    v
}

/// The bytes of `,"insertion_index":`.
#[verifier::opaque]
pub open spec fn lit_f_insertion_index() -> Seq<u8> {
    seq![44u8, 34u8, 105u8, 110u8, 115u8, 101u8, 114u8, 116u8, 105u8, 111u8, 110u8, 95u8, 105u8, 110u8, 100u8, 101u8, 120u8, 34u8, 58u8]
}

fn lit_vec_f_insertion_index() -> (v: Vec<u8>)
    ensures
        v@ == lit_f_insertion_index(),
{
    let mut v: Vec<u8> = Vec::new();
    v.push(44);
    v.push(34);
    v.push(105);
    v.push(110);
    v.push(115);
    v.push(101);
    v.push(114);
    v.push(116);
    v.push(105);
    v.push(111);
    v.push(110);
    v.push(95);
    v.push(105);
    v.push(110);
    v.push(100);
    v.push(101);
    v.push(120);
    v.push(34);
    v.push(58);
    proof {
        reveal(lit_f_insertion_index);
        assert(v@ =~= lit_f_insertion_index());
    }
    v
}

/// The bytes of `,"num_rows":`.
#[verifier::opaque]
pub open spec fn lit_f_num_rows() -> Seq<u8> {
    seq![44u8, 34u8, 110u8, 117u8, 109u8, 95u8, 114u8, 111u8, 119u8, 115u8, 34u8, 58u8]
}

fn lit_vec_f_num_rows() -> (v: Vec<u8>)
    ensures
        v@ == lit_f_num_rows(),
{
    let mut v: Vec<u8> = Vec::new();
    v.push(44);
    v.push(34);
    v.push(110);
    v.push(117);
    v.push(109);
    v.push(95);
    v.push(114);
    v.push(111);
    v.push(119);
    v.push(115);
    v.push(34);
    v.push(58);
    proof {
        reveal(lit_f_num_rows);
        assert(v@ =~= lit_f_num_rows());
    }
    v
}

/// The bytes of `,"table":[`.
#[verifier::opaque]
pub open spec fn lit_f_table() -> Seq<u8> {
    seq![44u8, 34u8, 116u8, 97u8, 98u8, 108u8, 101u8, 34u8, 58u8, 91u8]
}

fn lit_vec_f_table() -> (v: Vec<u8>)
    ensures
        v@ == lit_f_table(),
{
    let mut v: Vec<u8> = Vec::new();
    v.push(44);
    v.push(34);
    v.push(116);
    v.push(97);
    v.push(98);
    v.push(108);
    v.push(101);
    v.push(34);
    v.push(58);
    v.push(91);
    proof {
        reveal(lit_f_table);
        assert(v@ =~= lit_f_table());
    }
    v
}

/// The bytes of `{"text":"`.
#[verifier::opaque]
pub open spec fn lit_cv_open() -> Seq<u8> {
    seq![123u8, 34u8, 116u8, 101u8, 120u8, 116u8, 34u8, 58u8, 34u8]
}

fn lit_vec_cv_open() -> (v: Vec<u8>)
    ensures
        v@ == lit_cv_open(),
{
    let mut v: Vec<u8> = Vec::new();
    v.push(123);
    v.push(34);
    v.push(116);
    v.push(101);
    v.push(120);
    v.push(116);
    v.push(34);
    v.push(58);
    v.push(34);
    proof {
        reveal(lit_cv_open);
        assert(v@ =~= lit_cv_open());
    }
    v
}

/// The bytes of `,"owner_id":`.
#[verifier::opaque]
pub open spec fn lit_f_owner() -> Seq<u8> {
    seq![44u8, 34u8, 111u8, 119u8, 110u8, 101u8, 114u8, 95u8, 105u8, 100u8, 34u8, 58u8]
}

fn lit_vec_f_owner() -> (v: Vec<u8>)
    ensures
        v@ == lit_f_owner(),
{
    let mut v: Vec<u8> = Vec::new();
    v.push(44);
    v.push(34);
    v.push(111);
    v.push(119);
    v.push(110);
    v.push(101);
    v.push(114);
    v.push(95);
    v.push(105);
    v.push(100);
    v.push(34);
    v.push(58);
    proof {
        reveal(lit_f_owner);
        assert(v@ =~= lit_f_owner());
    }
    v
}

/// The bytes of `null`.
#[verifier::opaque]
pub open spec fn lit_kw_null() -> Seq<u8> {
    seq![110u8, 117u8, 108u8, 108u8]
}

fn lit_vec_kw_null() -> (v: Vec<u8>)
    ensures
        v@ == lit_kw_null(),
{
    let mut v: Vec<u8> = Vec::new();
    v.push(110);
    v.push(117);
    v.push(108);
    v.push(108);
    proof {
        reveal(lit_kw_null);
        assert(v@ =~= lit_kw_null());
    }
    v
}

/// The bytes of `,`.
pub open spec fn lit_b_comma() -> Seq<u8> {
    seq![44u8]
}

fn lit_vec_b_comma() -> (v: Vec<u8>)
    ensures
        v@ == lit_b_comma(),
{
    let mut v: Vec<u8> = Vec::new();
    v.push(44);
    proof {
        assert(v@ =~= lit_b_comma());
    }
    v
}

/// The bytes of `[`.
pub open spec fn lit_b_lbracket() -> Seq<u8> {
    seq![91u8]
}

fn lit_vec_b_lbracket() -> (v: Vec<u8>)
    ensures
        v@ == lit_b_lbracket(),
{
    let mut v: Vec<u8> = Vec::new();
    v.push(91);
    proof {
        assert(v@ =~= lit_b_lbracket());
    }
    v
}

/// The bytes of `]`.
pub open spec fn lit_b_rbracket() -> Seq<u8> {
    seq![93u8]
}

fn lit_vec_b_rbracket() -> (v: Vec<u8>)
    ensures
        v@ == lit_b_rbracket(),
{
    let mut v: Vec<u8> = Vec::new();
    v.push(93);
    proof {
        assert(v@ =~= lit_b_rbracket());
    }
    v
}

/// The bytes of `}`.
pub open spec fn lit_b_rbrace() -> Seq<u8> {
    seq![125u8]
}

fn lit_vec_b_rbrace() -> (v: Vec<u8>)
    ensures
        v@ == lit_b_rbrace(),
{
    let mut v: Vec<u8> = Vec::new();
    v.push(125);
    proof {
        assert(v@ =~= lit_b_rbrace());
    }
    v
}

/// ASCII decimal digit.
pub open spec fn is_digit(b: u8) -> bool {
    48 <= b && b <= 57
}

pub open spec fn all_digits(s: Seq<u8>) -> bool {
    forall|i: int| 0 <= i < s.len() ==> is_digit(#[trigger] s[i])
}

/// Length of the leading run of digits.
pub open spec fn digits_len(s: Seq<u8>) -> nat
    decreases s.len(),
{
    if s.len() == 0 || !is_digit(s[0]) {
        0
    } else {
        1 + digits_len(s.skip(1))
    }
}

/// The value of a digit string, most significant first, folded onto
/// `acc`.
pub open spec fn val_fold(s: Seq<u8>, acc: nat) -> nat
    decreases s.len(),
{
    if s.len() == 0 {
        acc
    } else {
        val_fold(s.skip(1), acc * 10 + (s[0] - 48) as nat)
    }
}

/// Parse an unsigned decimal off the front of `s`: its value and the
/// digits consumed; `None` without a leading digit or past `u64::MAX`.
pub open spec fn spec_parse_u64(s: Seq<u8>) -> Option<(u64, nat)> {
    let n = digits_len(s);
    if n == 0 {
        Option::None
    } else {
        let v = val_fold(s.subrange(0, n as int), 0);
        if v > u64::MAX {
            Option::None
        } else {
            Option::Some((v as u64, n))
        }
    }
}

/// The canonical decimal digits of `n`, no leading zeros.
pub open spec fn dec_rep(n: nat) -> Seq<u8>
    decreases n,
{
    if n < 10 {
        seq![(48 + n) as u8]
    } else {
        dec_rep(n / 10).push((48 + n % 10) as u8)
    }
}

/// Write `n` in decimal.
pub fn write_u64(out: &mut Vec<u8>, n: u64)
    ensures
        final(out)@ == old(out)@ + dec_rep(n as nat),
    decreases n,
{
    if n < 10 {
        out.push(48 + n as u8);
        proof {
            assert(out@ =~= old(out)@ + dec_rep(n as nat));
        }
    } else {
        write_u64(out, n / 10);
        out.push(48 + (n % 10) as u8);
        proof {
            assert(out@ =~= old(out)@ + dec_rep(n as nat));
        }
    }
}

proof fn lemma_dec_rep_digits(n: nat)
    ensures
        all_digits(dec_rep(n)),
        dec_rep(n).len() >= 1,
    decreases n,
{
    if n < 10 {
        assert(dec_rep(n)[0] == (48 + n) as u8);
    } else {
        lemma_dec_rep_digits(n / 10);
        let d = dec_rep(n / 10);
        let b = (48 + n % 10) as u8;
        assert forall|i: int| 0 <= i < d.push(b).len() implies
            is_digit(#[trigger] d.push(b)[i]) by {
            if i < d.len() {
                assert(d.push(b)[i] == d[i]);
            } else {
                assert(d.push(b)[i] == b);
            }
        }
    }
}

/// Appending non-digit-led `rest` to a digit string leaves the digit
/// run exactly the digit string.
proof fn lemma_digits_len_concat(d: Seq<u8>, rest: Seq<u8>)
    requires
        all_digits(d),
        rest.len() == 0 || !is_digit(rest[0]),
    ensures
        digits_len(d + rest) == d.len(),
    decreases d.len(),
{
    if d.len() == 0 {
        assert(d + rest =~= rest);
    } else {
        assert((d + rest)[0] == d[0]);
        assert((d + rest).skip(1) =~= d.skip(1) + rest);
        assert(all_digits(d.skip(1))) by {
            assert forall|i: int| 0 <= i < d.skip(1).len() implies
                is_digit(#[trigger] d.skip(1)[i]) by {
                assert(d.skip(1)[i] == d[i + 1]);
            }
        }
        lemma_digits_len_concat(d.skip(1), rest);
    }
}

proof fn lemma_digits_len_le(s: Seq<u8>)
    ensures
        digits_len(s) <= s.len(),
    decreases s.len(),
{
    if s.len() == 0 || !is_digit(s[0]) {
    } else {
        lemma_digits_len_le(s.skip(1));
    }
}

/// A digit run of at least `k` makes `digits_len` at least `k`.
proof fn lemma_digits_len_at_least(s: Seq<u8>, k: int)
    requires
        0 <= k <= s.len(),
        forall|j: int| 0 <= j < k ==> is_digit(#[trigger] s[j]),
    ensures
        digits_len(s) >= k,
    decreases k,
{
    if k > 0 {
        assert(is_digit(s[0]));
        assert forall|j: int| 0 <= j < k - 1 implies is_digit(#[trigger] s.skip(1)[j]) by {
            assert(s.skip(1)[j] == s[j + 1]);
        }
        lemma_digits_len_at_least(s.skip(1), k - 1);
    }
}

proof fn lemma_val_fold_concat(a: Seq<u8>, b: Seq<u8>, acc: nat)
    ensures
        val_fold(a + b, acc) == val_fold(b, val_fold(a, acc)),
    decreases a.len(),
{
    if a.len() == 0 {
        assert(a + b =~= b);
    } else {
        assert((a + b)[0] == a[0]);
        assert((a + b).skip(1) =~= a.skip(1) + b);
        lemma_val_fold_concat(a.skip(1), b, acc * 10 + (a[0] - 48) as nat);
    }
}

proof fn lemma_val_fold_lower(s: Seq<u8>, acc: nat)
    ensures
        val_fold(s, acc) >= acc,
    decreases s.len(),
{
    if s.len() == 0 {
    } else {
        let dd: nat = (s[0] - 48) as nat;
        let step: nat = acc * 10 + dd;
        assert(acc * 10 + dd >= acc) by (nonlinear_arith);
        lemma_val_fold_lower(s.skip(1), step);
    }
}

proof fn lemma_val_fold_push(d: Seq<u8>, b: u8, acc: nat)
    requires
        is_digit(b),
    ensures
        val_fold(d.push(b), acc) == val_fold(d, acc) * 10 + (b - 48) as nat,
    decreases d.len(),
{
    if d.len() == 0 {
        assert(d.push(b)[0] == b);
        assert(d.push(b).skip(1) =~= Seq::<u8>::empty());
        assert(val_fold(d.push(b), acc)
            == val_fold(Seq::<u8>::empty(), acc * 10 + (b - 48) as nat));
        assert(val_fold(d, acc) == acc);
    } else {
        assert(d.push(b)[0] == d[0]);
        assert(d.push(b).skip(1) =~= d.skip(1).push(b));
        lemma_val_fold_push(d.skip(1), b, acc * 10 + (d[0] - 48) as nat);
        assert(val_fold(d.push(b), acc)
            == val_fold(d.skip(1).push(b), acc * 10 + (d[0] - 48) as nat));
        assert(val_fold(d, acc) == val_fold(d.skip(1), acc * 10 + (d[0] - 48) as nat));
    }
}

spec fn pow10(k: nat) -> nat
    decreases k,
{
    if k == 0 {
        1
    } else {
        10 * pow10((k - 1) as nat)
    }
}

proof fn lemma_val_fold_dec_rep(n: nat, acc: nat)
    ensures
        val_fold(dec_rep(n), acc) == acc * pow10(dec_rep(n).len()) + n,
    decreases n,
{
    reveal_with_fuel(pow10, 3);
    if n < 10 {
        let b = (48 + n) as u8;
        assert(dec_rep(n) == seq![b]);
        assert(seq![b][0] == b);
        assert(seq![b].skip(1) =~= Seq::<u8>::empty());
        assert(val_fold(seq![b], acc)
            == val_fold(Seq::<u8>::empty(), acc * 10 + (b - 48) as nat));
        assert((b - 48) as nat == n);
        assert(pow10(1) == 10);
    } else {
        let d = dec_rep(n / 10);
        let b = (48 + n % 10) as u8;
        lemma_val_fold_dec_rep(n / 10, acc);
        lemma_val_fold_push(d, b, acc);
        assert((b - 48) as nat == n % 10);
        assert(dec_rep(n).len() == d.len() + 1);
        assert(pow10(d.len() + 1) == 10 * pow10(d.len()));
        let p: nat = pow10(d.len());
        let q: nat = n / 10;
        let rr: nat = n % 10;
        assert((acc * p + q) * 10 + rr == acc * (10 * p) + (q * 10 + rr))
            by (nonlinear_arith);
        assert((n / 10) * 10 + n % 10 == n);
        assert(val_fold(dec_rep(n), acc) == val_fold(d, acc) * 10 + rr);
    }
}

/// Parsing the decimal encoding of `n`, followed by anything that does
/// not start with a digit, yields exactly `n` and consumes exactly the
/// encoding.
pub proof fn lemma_parse_u64_round_trip(n: u64, rest: Seq<u8>)
    requires
        rest.len() == 0 || !is_digit(rest[0]),
    ensures
        spec_parse_u64(dec_rep(n as nat) + rest)
            == Option::Some((n, dec_rep(n as nat).len())),
        (dec_rep(n as nat) + rest).skip(dec_rep(n as nat).len() as int) == rest,
{
    let d = dec_rep(n as nat);
    lemma_dec_rep_digits(n as nat);
    lemma_digits_len_concat(d, rest);
    assert((d + rest).subrange(0, d.len() as int) =~= d);
    lemma_val_fold_dec_rep(n as nat, 0);
    assert(0 * pow10(d.len()) == 0) by (nonlinear_arith);
    assert((d + rest).skip(d.len() as int) =~= rest);
}

/// Parse an unsigned decimal at `pos`.
fn parse_u64(s: &[u8], pos: usize) -> (r: Option<(u64, usize)>)
    requires
        pos <= s@.len(),
    ensures
        match r {
            Option::Some(v) => pos < v.1 <= s@.len()
                && spec_parse_u64(s@.skip(pos as int))
                    == Option::Some((v.0, (v.1 - pos) as nat)),
            Option::None => spec_parse_u64(s@.skip(pos as int)) is None,
        },
{
    let ghost suffix = s@.skip(pos as int);
    if pos == s.len() || !(48 <= s[pos] && s[pos] <= 57) {
        proof {
            if suffix.len() > 0 {
                assert(suffix[0] == s@[pos as int]);
            }
            assert(digits_len(suffix) == 0);
        }
        return Option::None;
    }
    let mut i: usize = pos;
    let mut acc: u64 = 0;
    proof {
        assert(s@.subrange(pos as int, pos as int) =~= Seq::<u8>::empty());
    }
    while i < s.len() && 48 <= s[i] && s[i] <= 57
        invariant
            pos <= i <= s@.len(),
            forall|k: int| pos as int <= k < i as int ==> is_digit(#[trigger] s@[k]),
            val_fold(s@.subrange(pos as int, i as int), 0) == acc,
            suffix == s@.skip(pos as int),
        decreases s@.len() - i,
    {
        let d: u8 = s[i] - 48;
        let ghost cur = s@.subrange(pos as int, i as int);
        proof {
            assert(all_digits(cur));
        }
        if acc > (u64::MAX - d as u64) / 10 {
            proof {
                let step: nat = (acc * 10 + d) as nat;
                assert(acc as nat * 10 + d as nat > u64::MAX) by (nonlinear_arith)
                    requires acc as nat > ((u64::MAX - d as nat) as nat) / 10, d <= 9;
                lemma_val_fold_push(cur, s@[i as int], 0);
                assert(cur.push(s@[i as int]) =~= s@.subrange(pos as int, i as int + 1));
                let n = digits_len(suffix);
                assert forall|j: int| 0 <= j < i as int + 1 - pos as int implies
                    is_digit(#[trigger] suffix[j]) by {
                    assert(suffix[j] == s@[pos + j]);
                }
                lemma_digits_len_at_least(suffix, i as int + 1 - pos as int);
                lemma_digits_len_le(suffix);
                let full = suffix.subrange(0, n as int);
                assert(full =~= s@.subrange(pos as int, i as int + 1)
                    + suffix.subrange(i as int + 1 - pos as int, n as int));
                lemma_val_fold_concat(s@.subrange(pos as int, i as int + 1),
                    suffix.subrange(i as int + 1 - pos as int, n as int), 0);
                lemma_val_fold_lower(suffix.subrange(i as int + 1 - pos as int, n as int),
                    val_fold(s@.subrange(pos as int, i as int + 1), 0));
                assert(val_fold(full, 0) > u64::MAX);
            }
            return Option::None;
        }
        proof {
            lemma_val_fold_push(cur, s@[i as int], 0);
            assert(cur.push(s@[i as int]) =~= s@.subrange(pos as int, i as int + 1));
            assert(acc as nat * 10 + d as nat <= u64::MAX) by (nonlinear_arith)
                requires acc as nat <= ((u64::MAX - d as nat) as nat) / 10, d <= 9;
        }
        acc = acc * 10 + d as u64;
        i = i + 1;
    }
    proof {
        let d_seq = s@.subrange(pos as int, i as int);
        let rest = s@.skip(i as int);
        assert(suffix =~= d_seq + rest);
        assert(all_digits(d_seq));
        if rest.len() > 0 {
            assert(rest[0] == s@[i as int]);
        }
        lemma_digits_len_concat(d_seq, rest);
        assert(suffix.subrange(0, d_seq.len() as int) =~= d_seq);
        assert(digits_len(suffix) == i - pos);
        assert(i > pos);
    }
    Option::Some((acc, i))
}


/// A hex digit for a nibble, lowercase.
pub open spec fn hex_digit(n: nat) -> u8 {
    if n < 10 {
        (48 + n) as u8
    } else {
        (87 + n) as u8
    }
}

/// The nibble of a hex digit byte; 16 marks a non-hex byte.
pub open spec fn hex_val(b: u8) -> nat {
    if 48 <= b && b <= 57 {
        (b - 48) as nat
    } else if 97 <= b && b <= 102 {
        (b - 87) as nat
    } else {
        16
    }
}

/// The JSON escape of one byte of string content: `"` and `\\` are
/// backslash-escaped, control bytes become `\u00XX`, anything else
/// passes through.
pub open spec fn esc_byte(b: u8) -> Seq<u8> {
    if b == 34 {
        seq![92u8, 34u8]
    } else if b == 92 {
        seq![92u8, 92u8]
    } else if b < 32 {
        seq![92u8, 117u8, 48u8, 48u8, hex_digit((b / 16) as nat), hex_digit((b % 16) as nat)]
    } else {
        seq![b]
    }
}

/// The escaped form of a whole string body.
pub open spec fn esc(s: Seq<u8>) -> Seq<u8>
    decreases s.len(),
{
    if s.len() == 0 {
        Seq::empty()
    } else {
        esc_byte(s[0]) + esc(s.skip(1))
    }
}

proof fn lemma_esc_concat(a: Seq<u8>, b: Seq<u8>)
    ensures
        esc(a + b) == esc(a) + esc(b),
    decreases a.len(),
{
    if a.len() == 0 {
        assert(a + b =~= b);
        assert(esc(a) + esc(b) =~= esc(b));
    } else {
        assert((a + b)[0] == a[0]);
        assert((a + b).skip(1) =~= a.skip(1) + b);
        lemma_esc_concat(a.skip(1), b);
        assert(esc_byte(a[0]) + (esc(a.skip(1)) + esc(b))
            =~= (esc_byte(a[0]) + esc(a.skip(1))) + esc(b));
    }
}

/// Parse a string body off the front of `s`, up to and including the
/// closing quote: the unescaped content and the bytes consumed. Raw
/// control bytes, truncated escapes, unknown escapes and `\u` escapes
/// at or above 0x80 are refused.
pub open spec fn spec_parse_str_body(s: Seq<u8>) -> Option<(Seq<u8>, nat)>
    decreases s.len(),
{
    if s.len() == 0 {
        Option::None
    } else if s[0] == 34 {
        Option::Some((Seq::empty(), 1))
    } else if s[0] == 92 {
        if s.len() < 2 {
            Option::None
        } else if s[1] == 117 {
            if s.len() < 6 {
                Option::None
            } else {
                let v = hex_val(s[2]) * 4096 + hex_val(s[3]) * 256 + hex_val(s[4]) * 16
                    + hex_val(s[5]);
                if hex_val(s[2]) < 16 && hex_val(s[3]) < 16 && hex_val(s[4]) < 16
                    && hex_val(s[5]) < 16 && v < 128 {
                    match spec_parse_str_body(s.skip(6)) {
                        Option::Some(t) => Option::Some((seq![v as u8] + t.0, t.1 + 6)),
                        Option::None => Option::None,
                    }
                } else {
                    Option::None
                }
            }
        } else {
            let unescaped: u8 = if s[1] == 34 {
                34
            } else if s[1] == 92 {
                92
            } else if s[1] == 47 {
                47
            } else if s[1] == 98 {
                8
            } else if s[1] == 102 {
                12
            } else if s[1] == 110 {
                10
            } else if s[1] == 114 {
                13
            } else if s[1] == 116 {
                9
            } else {
                255
            };
            if unescaped == 255 {
                Option::None
            } else {
                match spec_parse_str_body(s.skip(2)) {
                    Option::Some(t) => Option::Some((seq![unescaped] + t.0, t.1 + 2)),
                    Option::None => Option::None,
                }
            }
        }
    } else if s[0] < 32 {
        Option::None
    } else {
        match spec_parse_str_body(s.skip(1)) {
            Option::Some(t) => Option::Some((seq![s[0]] + t.0, t.1 + 1)),
            Option::None => Option::None,
        }
    }
}

/// Parsing an escaped string body followed by its closing quote and
/// anything after recovers exactly the content, consuming the escaped
/// bytes and the quote.
pub proof fn lemma_parse_str_round_trip(text: Seq<u8>, rest: Seq<u8>)
    ensures
        spec_parse_str_body(esc(text) + seq![34u8] + rest)
            == Option::Some((text, esc(text).len() + 1)),
        (esc(text) + seq![34u8] + rest).skip(esc(text).len() as int + 1) == rest,
    decreases text.len(),
{
    let s = esc(text) + seq![34u8] + rest;
    assert(s.skip(esc(text).len() as int + 1) =~= rest);
    if text.len() == 0 {
        assert(esc(text) =~= Seq::<u8>::empty());
        assert(s[0] == 34);
    } else {
        let b = text[0];
        let tail = text.skip(1);
        lemma_parse_str_round_trip(tail, rest);
        let s1 = esc(tail) + seq![34u8] + rest;
        assert(esc(text) == esc_byte(b) + esc(tail));
        assert(s =~= esc_byte(b) + s1);
        if b == 34 {
            assert(s[0] == 92 && s[1] == 34);
            assert(s.skip(2) =~= s1);
            assert(seq![34u8] + tail =~= text);
        } else if b == 92 {
            assert(s[0] == 92 && s[1] == 92);
            assert(s.skip(2) =~= s1);
            assert(seq![92u8] + tail =~= text);
        } else if b < 32 {
            assert(s[0] == 92 && s[1] == 117 && s[2] == 48 && s[3] == 48);
            assert(s[4] == hex_digit((b / 16) as nat));
            assert(s[5] == hex_digit((b % 16) as nat));
            assert(hex_val(hex_digit((b / 16) as nat)) == (b / 16) as nat);
            assert(hex_val(hex_digit((b % 16) as nat)) == (b % 16) as nat);
            assert(hex_val(s[2]) == 0 && hex_val(s[3]) == 0);
            let v = hex_val(s[2]) * 4096 + hex_val(s[3]) * 256 + hex_val(s[4]) * 16
                + hex_val(s[5]);
            assert(v == (b / 16) as nat * 16 + (b % 16) as nat);
            assert(v == b);
            assert(s.skip(6) =~= s1);
            assert(seq![b] + tail =~= text);
        } else {
            assert(s[0] == b);
            assert(!(b == 34) && !(b == 92) && !(b < 32));
            assert(s.skip(1) =~= s1);
            assert(seq![b] + tail =~= text);
        }
    }
}

/// Write one string body, escaped, without the surrounding quotes.
pub fn write_str_body(out: &mut Vec<u8>, text: &Vec<u8>)
    ensures
        final(out)@ == old(out)@ + esc(text@),
{
    let mut i: usize = 0;
    proof {
        assert(esc(text@.subrange(0, 0)) =~= Seq::<u8>::empty());
        assert(out@ =~= old(out)@ + esc(text@.subrange(0, 0)));
    }
    while i < text.len()
        invariant
            i <= text@.len(),
            out@ == old(out)@ + esc(text@.subrange(0, i as int)),
        decreases text@.len() - i,
    {
        let b = text[i];
        let ghost prefix = text@.subrange(0, i as int);
        if b == 34 {
            out.push(92);
            out.push(34);
        } else if b == 92 {
            out.push(92);
            out.push(92);
        } else if b < 32 {
            out.push(92);
            out.push(117);
            out.push(48);
            out.push(48);
            let hi = b / 16;
            let lo = b % 16;
            out.push(if hi < 10 { 48 + hi } else { 87 + hi });
            out.push(if lo < 10 { 48 + lo } else { 87 + lo });
        } else {
            out.push(b);
        }
        i = i + 1;
        proof {
            assert(text@.subrange(0, i as int) =~= prefix + seq![b]);
            lemma_esc_concat(prefix, seq![b]);
            assert(seq![b].skip(1) =~= Seq::<u8>::empty());
            assert(seq![b][0] == b);
            assert(esc(Seq::<u8>::empty()) == Seq::<u8>::empty());
            assert(esc(seq![b]) == esc_byte(b) + esc(Seq::<u8>::empty()));
            assert(esc_byte(b) + Seq::<u8>::empty() =~= esc_byte(b));
            assert(out@ =~= old(out)@ + esc(text@.subrange(0, i as int)));
        }
    }
    proof {
        assert(text@.subrange(0, text@.len() as int) =~= text@);
    }
}

/// Parse a string body at `pos`, through its closing quote.
#[verifier::rlimit(60)]
fn parse_str_body(s: &[u8], pos: usize) -> (r: Option<(Vec<u8>, usize)>)
    requires
        pos <= s@.len(),
    ensures
        match r {
            Option::Some(v) => pos < v.1 <= s@.len()
                && spec_parse_str_body(s@.skip(pos as int))
                    == Option::Some((v.0@, (v.1 - pos) as nat)),
            Option::None => spec_parse_str_body(s@.skip(pos as int)) is None,
        },
    decreases s@.len() - pos,
{
    let ghost suffix = s@.skip(pos as int);
    if pos == s.len() {
        return Option::None;
    }
    let b = s[pos];
    proof {
        assert(suffix[0] == b);
    }
    if b == 34 {
        return Option::Some((Vec::new(), pos + 1));
    }
    if b == 92 {
        if pos + 1 == s.len() {
            proof {
                assert(suffix.len() < 2);
            }
            return Option::None;
        }
        let e = s[pos + 1];
        proof {
            assert(suffix[1] == e);
        }
        if e == 117 {
            if s.len() - pos < 6 {
                proof {
                    assert(suffix.len() < 6);
                }
                return Option::None;
            }
            proof {
                assert(suffix[2] == s@[pos as int + 2]);
                assert(suffix[3] == s@[pos as int + 3]);
                assert(suffix[4] == s@[pos as int + 4]);
                assert(suffix[5] == s@[pos as int + 5]);
            }
            let h2 = hex_nibble(s[pos + 2]);
            let h3 = hex_nibble(s[pos + 3]);
            let h4 = hex_nibble(s[pos + 4]);
            let h5 = hex_nibble(s[pos + 5]);
            if h2 == 16 || h3 == 16 || h4 == 16 || h5 == 16 {
                return Option::None;
            }
            let v: u32 = h2 as u32 * 4096 + h3 as u32 * 256 + h4 as u32 * 16 + h5 as u32;
            if v >= 128 {
                return Option::None;
            }
            match parse_str_body(s, pos + 6) {
                Option::Some((mut t, p)) => {
                    t.insert(0, v as u8);
                    proof {
                        assert(t@ =~= seq![v as u8] + t@.skip(1));
                        assert(suffix.skip(6) =~= s@.skip(pos as int + 6));
                    }
                    Option::Some((t, p))
                },
                Option::None => {
                    proof {
                        assert(suffix.skip(6) =~= s@.skip(pos as int + 6));
                    }
                    Option::None
                },
            }
        } else {
            let unescaped: u8 = if e == 34 {
                34
            } else if e == 92 {
                92
            } else if e == 47 {
                47
            } else if e == 98 {
                8
            } else if e == 102 {
                12
            } else if e == 110 {
                10
            } else if e == 114 {
                13
            } else if e == 116 {
                9
            } else {
                255
            };
            if unescaped == 255 {
                return Option::None;
            }
            match parse_str_body(s, pos + 2) {
                Option::Some((mut t, p)) => {
                    t.insert(0, unescaped);
                    proof {
                        assert(t@ =~= seq![unescaped] + t@.skip(1));
                        assert(suffix.skip(2) =~= s@.skip(pos as int + 2));
                    }
                    Option::Some((t, p))
                },
                Option::None => {
                    proof {
                        assert(suffix.skip(2) =~= s@.skip(pos as int + 2));
                    }
                    Option::None
                },
            }
        }
    } else if b < 32 {
        Option::None
    } else {
        match parse_str_body(s, pos + 1) {
            Option::Some((mut t, p)) => {
                t.insert(0, b);
                proof {
                    assert(t@ =~= seq![b] + t@.skip(1));
                    assert(suffix.skip(1) =~= s@.skip(pos as int + 1));
                }
                Option::Some((t, p))
            },
            Option::None => {
                proof {
                    assert(suffix.skip(1) =~= s@.skip(pos as int + 1));
                }
                Option::None
            },
        }
    }
}

/// The nibble of a hex digit byte, 16 for anything else.
fn hex_nibble(b: u8) -> (r: u8)
    ensures
        r as nat == hex_val(b),
{
    if 48 <= b && b <= 57 {
        b - 48
    } else if 97 <= b && b <= 102 {
        b - 87
    } else {
        16
    }
}


/// Encoding of a cell address, after its opening bracket: `R,C]`.
pub open spec fn enc_cell(rc: (u64, u64)) -> Seq<u8> {
    dec_rep(rc.0 as nat) + lit_b_comma() + dec_rep(rc.1 as nat) + lit_b_rbracket()
}

/// Parse a cell address after its opening bracket.
pub open spec fn spec_parse_cell(s: Seq<u8>) -> Option<((u64, u64), nat)> {
    match spec_parse_u64(s) {
        Option::Some(r0) => {
            let s1 = s.skip(r0.1 as int);
            match spec_parse_lit(s1, lit_b_comma()) {
                Option::Some(n1) => {
                    let s2 = s1.skip(n1 as int);
                    match spec_parse_u64(s2) {
                        Option::Some(r1) => {
                            let s3 = s2.skip(r1.1 as int);
                            match spec_parse_lit(s3, lit_b_rbracket()) {
                                Option::Some(n2) => Option::Some((
                                    (r0.0, r1.0),
                                    r0.1 + n1 + r1.1 + n2,
                                )),
                                Option::None => Option::None,
                            }
                        },
                        Option::None => Option::None,
                    }
                },
                Option::None => Option::None,
            }
        },
        Option::None => Option::None,
    }
}

#[verifier::rlimit(100)]
proof fn lemma_parse_cell_round_trip(rc: (u64, u64), rest: Seq<u8>)
    ensures
        spec_parse_cell(enc_cell(rc) + rest)
            == Option::Some((rc, enc_cell(rc).len())),
        (enc_cell(rc) + rest).skip(enc_cell(rc).len() as int) == rest,
{
    let s = enc_cell(rc) + rest;
    let d0 = dec_rep(rc.0 as nat);
    let d1 = dec_rep(rc.1 as nat);
    let r1 = lit_b_comma() + (d1 + (lit_b_rbracket() + rest));
    assert(s =~= d0 + r1);
    assert(r1[0] == lit_b_comma()[0]);
    assert(!is_digit(r1[0]));
    lemma_parse_u64_round_trip(rc.0, r1);
    let r2 = d1 + (lit_b_rbracket() + rest);
    lemma_parse_lit_round_trip(lit_b_comma(), r2);
    let r3 = lit_b_rbracket() + rest;
    assert(r3[0] == lit_b_rbracket()[0]);
    assert(!is_digit(r3[0]));
    lemma_parse_u64_round_trip(rc.1, r3);
    lemma_parse_lit_round_trip(lit_b_rbracket(), rest);
    assert(s.skip(enc_cell(rc).len() as int) =~= rest);
}

/// Encoding of one snapshot cell of the `Init` table.
pub open spec fn enc_cellview(c: CellView) -> Seq<u8> {
    lit_cv_open() + esc(c.text) + seq![34u8] + lit_f_owner() + (match c.owner_id {
        Option::Some(o) => dec_rep(o as nat),
        Option::None => lit_kw_null(),
    }) + lit_b_rbrace()
}

/// Parse one snapshot cell.
#[verifier::opaque]
pub open spec fn spec_parse_cellview(s: Seq<u8>) -> Option<(CellView, nat)> {
    match spec_parse_lit(s, lit_cv_open()) {
        Option::Some(n0) => {
            let s1 = s.skip(n0 as int);
            match spec_parse_str_body(s1) {
                Option::Some(t) => {
                    let s2 = s1.skip(t.1 as int);
                    match spec_parse_lit(s2, lit_f_owner()) {
                        Option::Some(n2) => {
                            let s3 = s2.skip(n2 as int);
                            if starts_with(s3, lit_kw_null()) {
                                let s4 = s3.skip(4);
                                match spec_parse_lit(s4, lit_b_rbrace()) {
                                    Option::Some(n4) => Option::Some((
                                        CellView { text: t.0, owner_id: Option::None },
                                        n0 + t.1 + n2 + 4 + n4,
                                    )),
                                    Option::None => Option::None,
                                }
                            } else {
                                match spec_parse_u64(s3) {
                                    Option::Some(o) => {
                                        let s4 = s3.skip(o.1 as int);
                                        match spec_parse_lit(s4, lit_b_rbrace()) {
                                            Option::Some(n4) => Option::Some((
                                                CellView {
                                                    text: t.0,
                                                    owner_id: Option::Some(o.0),
                                                },
                                                n0 + t.1 + n2 + o.1 + n4,
                                            )),
                                            Option::None => Option::None,
                                        }
                                    },
                                    Option::None => Option::None,
                                }
                            }
                        },
                        Option::None => Option::None,
                    }
                },
                Option::None => Option::None,
            }
        },
        Option::None => Option::None,
    }
}

#[verifier::rlimit(100)]
proof fn lemma_parse_cellview_round_trip(c: CellView, rest: Seq<u8>)
    ensures
        spec_parse_cellview(enc_cellview(c) + rest)
            == Option::Some((c, enc_cellview(c).len())),
        (enc_cellview(c) + rest).skip(enc_cellview(c).len() as int) == rest,
{
    reveal(lit_kw_null);
    reveal(spec_parse_cellview);
    let s = enc_cellview(c) + rest;
    let owner_bytes = match c.owner_id {
        Option::Some(o) => dec_rep(o as nat),
        Option::None => lit_kw_null(),
    };
    let r1 = esc(c.text) + seq![34u8] + (lit_f_owner() + (owner_bytes + (lit_b_rbrace() + rest)));
    assert(s =~= lit_cv_open() + r1);
    lemma_parse_lit_round_trip(lit_cv_open(), r1);
    let r2 = lit_f_owner() + (owner_bytes + (lit_b_rbrace() + rest));
    assert(r1 =~= esc(c.text) + seq![34u8] + r2);
    lemma_parse_str_round_trip(c.text, r2);
    let r3 = owner_bytes + (lit_b_rbrace() + rest);
    lemma_parse_lit_round_trip(lit_f_owner(), r3);
    match c.owner_id {
        Option::None => {
            assert(starts_with(r3, lit_kw_null())) by {
                assert(r3.subrange(0, 4) =~= lit_kw_null());
            }
            assert(r3.skip(4) =~= lit_b_rbrace() + rest);
            lemma_parse_lit_round_trip(lit_b_rbrace(), rest);
        },
        Option::Some(o) => {
            lemma_dec_rep_digits(o as nat);
            assert(!starts_with(r3, lit_kw_null())) by {
                if starts_with(r3, lit_kw_null()) {
                    assert(r3.subrange(0, 4)[0] == r3[0]);
                    assert(r3[0] == owner_bytes[0]);
                    assert(is_digit(owner_bytes[0]));
                    assert(lit_kw_null()[0] == 110);
                }
            }
            let r4 = lit_b_rbrace() + rest;
            assert(r3 =~= dec_rep(o as nat) + r4);
            assert(r4[0] == lit_b_rbrace()[0]);
            assert(!is_digit(r4[0]));
            lemma_parse_u64_round_trip(o, r4);
            lemma_parse_lit_round_trip(lit_b_rbrace(), rest);
        },
    }
    assert(s.skip(enc_cellview(c).len() as int) =~= rest);
}

/// Encoding of the cells of a row after the first: `,cell` each.
pub open spec fn enc_cells_rest(row: Seq<CellView>) -> Seq<u8>
    decreases row.len(),
{
    if row.len() == 0 {
        Seq::empty()
    } else {
        lit_b_comma() + enc_cellview(row[0]) + enc_cells_rest(row.skip(1))
    }
}

/// Encoding of one row of the `Init` table.
pub open spec fn enc_row(row: Seq<CellView>) -> Seq<u8> {
    if row.len() == 0 {
        lit_b_lbracket() + lit_b_rbracket()
    } else {
        lit_b_lbracket() + enc_cellview(row[0]) + enc_cells_rest(row.skip(1))
            + lit_b_rbracket()
    }
}

/// Parse `,cell`* up to and including the row's closing bracket.
pub open spec fn spec_parse_cells_rest(s: Seq<u8>) -> Option<(Seq<CellView>, nat)>
    decreases s.len(),
{
    if s.len() == 0 {
        Option::None
    } else if s[0] == 93 {
        Option::Some((Seq::empty(), 1))
    } else if s[0] == 44 {
        match spec_parse_cellview(s.skip(1)) {
            Option::Some(c) => {
                if 1 + c.1 <= s.len() && c.1 >= 1 {
                    match spec_parse_cells_rest(s.skip(1 + c.1 as int)) {
                        Option::Some(t) => Option::Some((
                            seq![c.0] + t.0,
                            1 + c.1 + t.1,
                        )),
                        Option::None => Option::None,
                    }
                } else {
                    Option::None
                }
            },
            Option::None => Option::None,
        }
    } else {
        Option::None
    }
}

/// Parse one row: `[` then cells separated by commas then `]`.
pub open spec fn spec_parse_row(s: Seq<u8>) -> Option<(Seq<CellView>, nat)> {
    if s.len() < 2 || s[0] != 91 {
        Option::None
    } else if s[1] == 93 {
        Option::Some((Seq::empty(), 2))
    } else {
        match spec_parse_cellview(s.skip(1)) {
            Option::Some(c) => {
                if 1 + c.1 <= s.len() {
                    match spec_parse_cells_rest(s.skip(1 + c.1 as int)) {
                        Option::Some(t) => Option::Some((seq![c.0] + t.0, 1 + c.1 + t.1)),
                        Option::None => Option::None,
                    }
                } else {
                    Option::None
                }
            },
            Option::None => Option::None,
        }
    }
}

proof fn lemma_cellview_nonempty(c: CellView)
    ensures
        enc_cellview(c).len() >= 1,
        enc_cellview(c)[0] == 123,
{
    reveal(lit_cv_open);
    assert(enc_cellview(c)[0] == lit_cv_open()[0]);
}

#[verifier::rlimit(100)]
proof fn lemma_parse_cells_rest_round_trip(row: Seq<CellView>, rest: Seq<u8>)
    ensures
        spec_parse_cells_rest(enc_cells_rest(row) + lit_b_rbracket() + rest)
            == Option::Some((row, enc_cells_rest(row).len() + 1)),
        (enc_cells_rest(row) + lit_b_rbracket() + rest)
            .skip(enc_cells_rest(row).len() as int + 1) == rest,
    decreases row.len(),
{
    let s = enc_cells_rest(row) + lit_b_rbracket() + rest;
    assert(s.skip(enc_cells_rest(row).len() as int + 1) =~= rest);
    if row.len() == 0 {
        assert(enc_cells_rest(row) =~= Seq::<u8>::empty());
        assert(s[0] == lit_b_rbracket()[0]);
    } else {
        let c = row[0];
        let tail = row.skip(1);
        lemma_parse_cells_rest_round_trip(tail, rest);
        let s1 = enc_cells_rest(tail) + lit_b_rbracket() + rest;
        assert(s =~= lit_b_comma() + (enc_cellview(c) + s1));
        assert(s[0] == 44);
        lemma_cellview_nonempty(c);
        assert(s.skip(1) =~= enc_cellview(c) + s1);
        lemma_parse_cellview_round_trip(c, s1);
        assert(s.skip(1 + enc_cellview(c).len() as int) =~= s1);
        assert(seq![c] + tail =~= row);
    }
}

#[verifier::rlimit(100)]
proof fn lemma_parse_row_round_trip(row: Seq<CellView>, rest: Seq<u8>)
    ensures
        spec_parse_row(enc_row(row) + rest) == Option::Some((row, enc_row(row).len())),
        (enc_row(row) + rest).skip(enc_row(row).len() as int) == rest,
{
    let s = enc_row(row) + rest;
    assert(s.skip(enc_row(row).len() as int) =~= rest);
    if row.len() == 0 {
        assert(s[0] == 91 && s[1] == 93);
    } else {
        let c = row[0];
        let tail = row.skip(1);
        let s1 = enc_cells_rest(tail) + lit_b_rbracket() + rest;
        assert(s =~= lit_b_lbracket() + (enc_cellview(c) + s1));
        assert(s[0] == 91);
        lemma_cellview_nonempty(c);
        assert(s[1] == enc_cellview(c)[0]);
        assert(s[1] != 93);
        assert(s.skip(1) =~= enc_cellview(c) + s1);
        lemma_parse_cellview_round_trip(c, s1);
        assert(s.skip(1 + enc_cellview(c).len() as int) =~= s1);
        lemma_parse_cells_rest_round_trip(tail, rest);
        assert(seq![c] + tail =~= row);
    }
}

/// Encoding of the rows of the table after the first: `,row` each.
pub open spec fn enc_rows_rest(table: Seq<Seq<CellView>>) -> Seq<u8>
    decreases table.len(),
{
    if table.len() == 0 {
        Seq::empty()
    } else {
        lit_b_comma() + enc_row(table[0]) + enc_rows_rest(table.skip(1))
    }
}

/// Encoding of the whole `Init` table, after `[`: rows separated by
/// commas, then the closing `]`.
pub open spec fn enc_table(table: Seq<Seq<CellView>>) -> Seq<u8> {
    if table.len() == 0 {
        lit_b_rbracket()
    } else {
        enc_row(table[0]) + enc_rows_rest(table.skip(1)) + lit_b_rbracket()
    }
}

/// Parse `,row`* up to and including the table's closing bracket.
pub open spec fn spec_parse_rows_rest(s: Seq<u8>) -> Option<(Seq<Seq<CellView>>, nat)>
    decreases s.len(),
{
    if s.len() == 0 {
        Option::None
    } else if s[0] == 93 {
        Option::Some((Seq::empty(), 1))
    } else if s[0] == 44 {
        match spec_parse_row(s.skip(1)) {
            Option::Some(c) => {
                if 1 + c.1 <= s.len() && c.1 >= 1 {
                    match spec_parse_rows_rest(s.skip(1 + c.1 as int)) {
                        Option::Some(t) => Option::Some((seq![c.0] + t.0, 1 + c.1 + t.1)),
                        Option::None => Option::None,
                    }
                } else {
                    Option::None
                }
            },
            Option::None => Option::None,
        }
    } else {
        Option::None
    }
}

/// Parse a table after its opening bracket, through its closing
/// bracket.
pub open spec fn spec_parse_table(s: Seq<u8>) -> Option<(Seq<Seq<CellView>>, nat)> {
    if s.len() == 0 {
        Option::None
    } else if s[0] == 93 {
        Option::Some((Seq::empty(), 1))
    } else {
        match spec_parse_row(s) {
            Option::Some(c) => {
                if c.1 <= s.len() {
                    match spec_parse_rows_rest(s.skip(c.1 as int)) {
                        Option::Some(t) => Option::Some((seq![c.0] + t.0, c.1 + t.1)),
                        Option::None => Option::None,
                    }
                } else {
                    Option::None
                }
            },
            Option::None => Option::None,
        }
    }
}

#[verifier::rlimit(100)]
proof fn lemma_parse_rows_rest_round_trip(table: Seq<Seq<CellView>>, rest: Seq<u8>)
    ensures
        spec_parse_rows_rest(enc_rows_rest(table) + lit_b_rbracket() + rest)
            == Option::Some((table, enc_rows_rest(table).len() + 1)),
        (enc_rows_rest(table) + lit_b_rbracket() + rest)
            .skip(enc_rows_rest(table).len() as int + 1) == rest,
    decreases table.len(),
{
    let s = enc_rows_rest(table) + lit_b_rbracket() + rest;
    assert(s.skip(enc_rows_rest(table).len() as int + 1) =~= rest);
    if table.len() == 0 {
        assert(enc_rows_rest(table) =~= Seq::<u8>::empty());
        assert(s[0] == lit_b_rbracket()[0]);
    } else {
        let row = table[0];
        let tail = table.skip(1);
        lemma_parse_rows_rest_round_trip(tail, rest);
        let s1 = enc_rows_rest(tail) + lit_b_rbracket() + rest;
        assert(s =~= lit_b_comma() + (enc_row(row) + s1));
        assert(s[0] == 44);
        assert(enc_row(row)[0] == 91);
        assert(s.skip(1) =~= enc_row(row) + s1);
        lemma_parse_row_round_trip(row, s1);
        assert(s.skip(1 + enc_row(row).len() as int) =~= s1);
        assert(seq![row] + tail =~= table);
    }
}

#[verifier::rlimit(100)]
proof fn lemma_parse_table_round_trip(table: Seq<Seq<CellView>>, rest: Seq<u8>)
    ensures
        spec_parse_table(enc_table(table) + rest)
            == Option::Some((table, enc_table(table).len())),
        (enc_table(table) + rest).skip(enc_table(table).len() as int) == rest,
{
    let s = enc_table(table) + rest;
    assert(s.skip(enc_table(table).len() as int) =~= rest);
    if table.len() == 0 {
        assert(s[0] == lit_b_rbracket()[0]);
    } else {
        let row = table[0];
        let tail = table.skip(1);
        let s1 = enc_rows_rest(tail) + lit_b_rbracket() + rest;
        assert(s =~= enc_row(row) + s1);
        assert(enc_row(row)[0] == 91);
        assert(s[0] == 91);
        assert(s[0] != 93);
        lemma_parse_row_round_trip(row, s1);
        assert(s.skip(enc_row(row).len() as int) =~= s1);
        lemma_parse_rows_rest_round_trip(tail, rest);
        assert(seq![row] + tail =~= table);
    }
}

/// The canonical JSON encoding of a message: the `type` tag first,
/// then the fields of the variant in order, with no whitespace.
pub open spec fn enc_msg(m: MsgView) -> Seq<u8> {
    match m {
        MsgView::Init { client_id, table } => lit_hdr_init() + dec_rep(client_id as nat)
            + lit_f_table() + enc_table(table) + lit_b_rbrace(),
        MsgView::Insert { client_id, cell, index, text } => lit_hdr_insert()
            + dec_rep(client_id as nat) + lit_f_cell() + enc_cell(cell) + lit_f_index()
            + dec_rep(index as nat) + lit_f_text() + esc(text) + seq![34u8] + lit_b_rbrace(),
        MsgView::Delete { client_id, cell, start, end } => lit_hdr_delete()
            + dec_rep(client_id as nat) + lit_f_cell() + enc_cell(cell) + lit_f_start()
            + dec_rep(start as nat) + lit_f_end() + dec_rep(end as nat) + lit_b_rbrace(),
        MsgView::Replace { client_id, cell, start, end, text } => lit_hdr_replace()
            + dec_rep(client_id as nat) + lit_f_cell() + enc_cell(cell) + lit_f_start()
            + dec_rep(start as nat) + lit_f_end() + dec_rep(end as nat) + lit_f_text()
            + esc(text) + seq![34u8] + lit_b_rbrace(),
        MsgView::InsertRows { client_id, insertion_index, num_rows } => lit_hdr_insert_rows()
            + dec_rep(client_id as nat) + lit_f_insertion_index()
            + dec_rep(insertion_index as nat) + lit_f_num_rows() + dec_rep(num_rows as nat)
            + lit_b_rbrace(),
        MsgView::AcquireLock { client_id, cell } => lit_hdr_acquire_lock()
            + dec_rep(client_id as nat) + lit_f_cell() + enc_cell(cell) + lit_b_rbrace(),
        MsgView::ReleaseLock { cell } => lit_hdr_release_lock() + enc_cell(cell)
            + lit_b_rbrace(),
    }
}

/// Expect the final `}` and the end of the frame.
pub open spec fn spec_parse_end(s: Seq<u8>) -> bool {
    s.len() == 1 && s[0] == 125
}

/// Decode the fields of an `insert` frame, after its header.
#[verifier::opaque]
pub open spec fn dec_insert_fields(s: Seq<u8>) -> Option<MsgView> {
    match spec_parse_u64(s) {
        Option::Some(cid) => {
            let s1 = s.skip(cid.1 as int);
            match spec_parse_lit(s1, lit_f_cell()) {
                Option::Some(n1) => {
                    let s2 = s1.skip(n1 as int);
                    match spec_parse_cell(s2) {
                        Option::Some(rc) => {
                            let s3 = s2.skip(rc.1 as int);
                            match spec_parse_lit(s3, lit_f_index()) {
                                Option::Some(n3) => {
                                    let s4 = s3.skip(n3 as int);
                                    match spec_parse_u64(s4) {
                                        Option::Some(ix) => {
                                            let s5 = s4.skip(ix.1 as int);
                                            match spec_parse_lit(s5, lit_f_text()) {
                                                Option::Some(n5) => {
                                                    let s6 = s5.skip(n5 as int);
                                                    match spec_parse_str_body(s6) {
                                                        Option::Some(t) => {
                                                            let s7 = s6.skip(t.1 as int);
                                                            if spec_parse_end(s7) {
                                                                Option::Some(MsgView::Insert {
                                                                    client_id: cid.0,
                                                                    cell: rc.0,
                                                                    index: ix.0,
                                                                    text: t.0,
                                                                })
                                                            } else {
                                                                Option::None
                                                            }
                                                        },
                                                        Option::None => Option::None,
                                                    }
                                                },
                                                Option::None => Option::None,
                                            }
                                        },
                                        Option::None => Option::None,
                                    }
                                },
                                Option::None => Option::None,
                            }
                        },
                        Option::None => Option::None,
                    }
                },
                Option::None => Option::None,
            }
        },
        Option::None => Option::None,
    }
}

/// Decode the fields of a `delete` frame, after its header.
#[verifier::opaque]
pub open spec fn dec_delete_fields(s: Seq<u8>) -> Option<MsgView> {
    match spec_parse_u64(s) {
        Option::Some(cid) => {
            let s1 = s.skip(cid.1 as int);
            match spec_parse_lit(s1, lit_f_cell()) {
                Option::Some(n1) => {
                    let s2 = s1.skip(n1 as int);
                    match spec_parse_cell(s2) {
                        Option::Some(rc) => {
                            let s3 = s2.skip(rc.1 as int);
                            match spec_parse_lit(s3, lit_f_start()) {
                                Option::Some(n3) => {
                                    let s4 = s3.skip(n3 as int);
                                    match spec_parse_u64(s4) {
                                        Option::Some(st) => {
                                            let s5 = s4.skip(st.1 as int);
                                            match spec_parse_lit(s5, lit_f_end()) {
                                                Option::Some(n5) => {
                                                    let s6 = s5.skip(n5 as int);
                                                    match spec_parse_u64(s6) {
                                                        Option::Some(en) => {
                                                            let s7 = s6.skip(en.1 as int);
                                                            if spec_parse_end(s7) {
                                                                Option::Some(MsgView::Delete {
                                                                    client_id: cid.0,
                                                                    cell: rc.0,
                                                                    start: st.0,
                                                                    end: en.0,
                                                                })
                                                            } else {
                                                                Option::None
                                                            }
                                                        },
                                                        Option::None => Option::None,
                                                    }
                                                },
                                                Option::None => Option::None,
                                            }
                                        },
                                        Option::None => Option::None,
                                    }
                                },
                                Option::None => Option::None,
                            }
                        },
                        Option::None => Option::None,
                    }
                },
                Option::None => Option::None,
            }
        },
        Option::None => Option::None,
    }
}

/// Decode the fields of a `replace` frame, after its header.
#[verifier::opaque]
pub open spec fn dec_replace_fields(s: Seq<u8>) -> Option<MsgView> {
    match spec_parse_u64(s) {
        Option::Some(cid) => {
            let s1 = s.skip(cid.1 as int);
            match spec_parse_lit(s1, lit_f_cell()) {
                Option::Some(n1) => {
                    let s2 = s1.skip(n1 as int);
                    match spec_parse_cell(s2) {
                        Option::Some(rc) => {
                            let s3 = s2.skip(rc.1 as int);
                            match spec_parse_lit(s3, lit_f_start()) {
                                Option::Some(n3) => {
                                    let s4 = s3.skip(n3 as int);
                                    match spec_parse_u64(s4) {
                                        Option::Some(st) => {
                                            let s5 = s4.skip(st.1 as int);
                                            match spec_parse_lit(s5, lit_f_end()) {
                                                Option::Some(n5) => {
                                                    let s6 = s5.skip(n5 as int);
                                                    match spec_parse_u64(s6) {
                                                        Option::Some(en) => {
                                                            let s7 = s6.skip(en.1 as int);
                                                            match spec_parse_lit(s7,
                                                                lit_f_text()) {
                                                                Option::Some(n7) => {
                                                                    let s8 = s7.skip(n7 as int);
                                                                    match spec_parse_str_body(
                                                                        s8) {
                                                                        Option::Some(t) => {
                                                                            let s9 = s8.skip(
                                                                                t.1 as int);
                                                                            if spec_parse_end(
                                                                                s9) {
                                                                                Option::Some(
                                                                                MsgView::Replace {
                                                                                    client_id:
                                                                                        cid.0,
                                                                                    cell: rc.0,
                                                                                    start: st.0,
                                                                                    end: en.0,
                                                                                    text: t.0,
                                                                                })
                                                                            } else {
                                                                                Option::None
                                                                            }
                                                                        },
                                                                        Option::None =>
                                                                            Option::None,
                                                                    }
                                                                },
                                                                Option::None => Option::None,
                                                            }
                                                        },
                                                        Option::None => Option::None,
                                                    }
                                                },
                                                Option::None => Option::None,
                                            }
                                        },
                                        Option::None => Option::None,
                                    }
                                },
                                Option::None => Option::None,
                            }
                        },
                        Option::None => Option::None,
                    }
                },
                Option::None => Option::None,
            }
        },
        Option::None => Option::None,
    }
}

/// Decode the fields of an `insert_rows` frame, after its header.
#[verifier::opaque]
pub open spec fn dec_insert_rows_fields(s: Seq<u8>) -> Option<MsgView> {
    match spec_parse_u64(s) {
        Option::Some(cid) => {
            let s1 = s.skip(cid.1 as int);
            match spec_parse_lit(s1, lit_f_insertion_index()) {
                Option::Some(n1) => {
                    let s2 = s1.skip(n1 as int);
                    match spec_parse_u64(s2) {
                        Option::Some(ii) => {
                            let s3 = s2.skip(ii.1 as int);
                            match spec_parse_lit(s3, lit_f_num_rows()) {
                                Option::Some(n3) => {
                                    let s4 = s3.skip(n3 as int);
                                    match spec_parse_u64(s4) {
                                        Option::Some(nr) => {
                                            let s5 = s4.skip(nr.1 as int);
                                            if spec_parse_end(s5) {
                                                Option::Some(MsgView::InsertRows {
                                                    client_id: cid.0,
                                                    insertion_index: ii.0,
                                                    num_rows: nr.0,
                                                })
                                            } else {
                                                Option::None
                                            }
                                        },
                                        Option::None => Option::None,
                                    }
                                },
                                Option::None => Option::None,
                            }
                        },
                        Option::None => Option::None,
                    }
                },
                Option::None => Option::None,
            }
        },
        Option::None => Option::None,
    }
}

/// Decode the fields of an `acquire_lock` frame, after its header.
#[verifier::opaque]
pub open spec fn dec_acquire_lock_fields(s: Seq<u8>) -> Option<MsgView> {
    match spec_parse_u64(s) {
        Option::Some(cid) => {
            let s1 = s.skip(cid.1 as int);
            match spec_parse_lit(s1, lit_f_cell()) {
                Option::Some(n1) => {
                    let s2 = s1.skip(n1 as int);
                    match spec_parse_cell(s2) {
                        Option::Some(rc) => {
                            let s3 = s2.skip(rc.1 as int);
                            if spec_parse_end(s3) {
                                Option::Some(MsgView::AcquireLock {
                                    client_id: cid.0,
                                    cell: rc.0,
                                })
                            } else {
                                Option::None
                            }
                        },
                        Option::None => Option::None,
                    }
                },
                Option::None => Option::None,
            }
        },
        Option::None => Option::None,
    }
}

/// Decode the fields of a `release_lock` frame, after its header.
#[verifier::opaque]
pub open spec fn dec_release_lock_fields(s: Seq<u8>) -> Option<MsgView> {
    match spec_parse_cell(s) {
        Option::Some(rc) => {
            let s1 = s.skip(rc.1 as int);
            if spec_parse_end(s1) {
                Option::Some(MsgView::ReleaseLock { cell: rc.0 })
            } else {
                Option::None
            }
        },
        Option::None => Option::None,
    }
}

/// Decode the fields of an `init` frame, after its header.
#[verifier::opaque]
pub open spec fn dec_init_fields(s: Seq<u8>) -> Option<MsgView> {
    match spec_parse_u64(s) {
        Option::Some(cid) => {
            let s1 = s.skip(cid.1 as int);
            match spec_parse_lit(s1, lit_f_table()) {
                Option::Some(n1) => {
                    let s2 = s1.skip(n1 as int);
                    match spec_parse_table(s2) {
                        Option::Some(t) => {
                            let s3 = s2.skip(t.1 as int);
                            if spec_parse_end(s3) {
                                Option::Some(MsgView::Init {
                                    client_id: cid.0,
                                    table: t.0,
                                })
                            } else {
                                Option::None
                            }
                        },
                        Option::None => Option::None,
                    }
                },
                Option::None => Option::None,
            }
        },
        Option::None => Option::None,
    }
}

/// Decode one frame: dispatch on the `type` tag, then parse the
/// variant's fields; the whole frame must be consumed.
pub open spec fn spec_decode_msg(s: Seq<u8>) -> Option<MsgView> {
    if starts_with(s, lit_hdr_init()) {
        dec_init_fields(s.skip(lit_hdr_init().len() as int))
    } else if starts_with(s, lit_hdr_insert_rows()) {
        dec_insert_rows_fields(s.skip(lit_hdr_insert_rows().len() as int))
    } else if starts_with(s, lit_hdr_insert()) {
        dec_insert_fields(s.skip(lit_hdr_insert().len() as int))
    } else if starts_with(s, lit_hdr_delete()) {
        dec_delete_fields(s.skip(lit_hdr_delete().len() as int))
    } else if starts_with(s, lit_hdr_replace()) {
        dec_replace_fields(s.skip(lit_hdr_replace().len() as int))
    } else if starts_with(s, lit_hdr_acquire_lock()) {
        dec_acquire_lock_fields(s.skip(lit_hdr_acquire_lock().len() as int))
    } else if starts_with(s, lit_hdr_release_lock()) {
        dec_release_lock_fields(s.skip(lit_hdr_release_lock().len() as int))
    } else {
        Option::None
    }
}

proof fn lemma_not_header(s: Seq<u8>, hdr: Seq<u8>, k: int)
    requires
        0 <= k < hdr.len(),
        k < s.len(),
        s[k] != hdr[k],
    ensures
        !starts_with(s, hdr),
{
    if starts_with(s, hdr) {
        assert(s.subrange(0, hdr.len() as int)[k] == s[k]);
    }
}

#[verifier::rlimit(100)]
#[verifier::spinoff_prover]
proof fn lemma_rt_init(client_id: u64, table: Seq<Seq<CellView>>)
    ensures
        spec_decode_msg(enc_msg(MsgView::Init { client_id, table }))
            == Option::Some(MsgView::Init { client_id, table }),
{
    reveal(lit_f_table);
    reveal(dec_init_fields);
    let m = MsgView::Init { client_id, table };
    let s = enc_msg(m);
    let r4 = lit_b_rbrace();
    let r3 = enc_table(table) + r4;
    let r2 = lit_f_table() + r3;
    let r1 = dec_rep(client_id as nat) + r2;
    assert(s =~= lit_hdr_init() + r1);
    lemma_parse_lit_round_trip(lit_hdr_init(), r1);
    assert(r2[0] == lit_f_table()[0]);
    assert(!is_digit(r2[0]));
    lemma_parse_u64_round_trip(client_id, r2);
    lemma_parse_lit_round_trip(lit_f_table(), r3);
    lemma_parse_table_round_trip(table, r4);
    assert(spec_parse_end(r4));
}

#[verifier::rlimit(100)]
#[verifier::spinoff_prover]
proof fn lemma_rt_insert_rows(client_id: u64, insertion_index: u64, num_rows: u64)
    ensures
        spec_decode_msg(enc_msg(MsgView::InsertRows { client_id, insertion_index, num_rows }))
            == Option::Some(MsgView::InsertRows { client_id, insertion_index, num_rows }),
{
    reveal(lit_hdr_insert_rows);
    reveal(lit_hdr_init);
    reveal(lit_f_insertion_index);
    reveal(lit_f_num_rows);
    reveal(dec_insert_rows_fields);
    let m = MsgView::InsertRows { client_id, insertion_index, num_rows };
    let s = enc_msg(m);
    let r5 = lit_b_rbrace();
    let r4 = dec_rep(num_rows as nat) + r5;
    let r3 = lit_f_num_rows() + r4;
    let r2 = dec_rep(insertion_index as nat) + r3;
    let r1 = lit_f_insertion_index() + r2;
    let r0 = dec_rep(client_id as nat) + r1;
    assert(s =~= lit_hdr_insert_rows() + r0);
    assert(s[11] == lit_hdr_insert_rows()[11]);
    assert(s[11] == 115);
    assert(lit_hdr_init()[11] == 105);
    lemma_not_header(s, lit_hdr_init(), 11);
    lemma_parse_lit_round_trip(lit_hdr_insert_rows(), r0);
    assert(r1[0] == lit_f_insertion_index()[0]);
    assert(!is_digit(r1[0]));
    lemma_parse_u64_round_trip(client_id, r1);
    lemma_parse_lit_round_trip(lit_f_insertion_index(), r2);
    assert(r3[0] == lit_f_num_rows()[0]);
    assert(!is_digit(r3[0]));
    lemma_parse_u64_round_trip(insertion_index, r3);
    lemma_parse_lit_round_trip(lit_f_num_rows(), r4);
    assert(r5[0] == 125);
    assert(!is_digit(r5[0]));
    lemma_parse_u64_round_trip(num_rows, r5);
    assert(spec_parse_end(r5));
}

#[verifier::rlimit(100)]
#[verifier::spinoff_prover]
proof fn lemma_rt_insert(client_id: u64, cell: (u64, u64), index: u64, text: Seq<u8>)
    ensures
        spec_decode_msg(enc_msg(MsgView::Insert { client_id, cell, index, text }))
            == Option::Some(MsgView::Insert { client_id, cell, index, text }),
{
    reveal(lit_hdr_insert);
    reveal(lit_hdr_init);
    reveal(lit_hdr_insert_rows);
    reveal(lit_f_cell);
    reveal(lit_f_text);
    reveal(dec_insert_fields);
    let m = MsgView::Insert { client_id, cell, index, text };
    let s = enc_msg(m);
    let r7 = lit_b_rbrace();
    let r6 = esc(text) + seq![34u8] + r7;
    let r5 = lit_f_text() + r6;
    let r4 = dec_rep(index as nat) + r5;
    let r3 = lit_f_index() + r4;
    let r2 = enc_cell(cell) + r3;
    let r1 = lit_f_cell() + r2;
    let r0 = dec_rep(client_id as nat) + r1;
    assert(s =~= lit_hdr_insert() + r0);
    assert(s[11] == lit_hdr_insert()[11]);
    assert(s[11] == 115);
    assert(lit_hdr_init()[11] == 105);
    lemma_not_header(s, lit_hdr_init(), 11);
    assert(s[15] == lit_hdr_insert()[15]);
    assert(s[15] == 34);
    assert(lit_hdr_insert_rows()[15] == 95);
    lemma_not_header(s, lit_hdr_insert_rows(), 15);
    lemma_parse_lit_round_trip(lit_hdr_insert(), r0);
    assert(r1[0] == lit_f_cell()[0]);
    assert(!is_digit(r1[0]));
    lemma_parse_u64_round_trip(client_id, r1);
    lemma_parse_lit_round_trip(lit_f_cell(), r2);
    lemma_parse_cell_round_trip(cell, r3);
    lemma_parse_lit_round_trip(lit_f_index(), r4);
    assert(r5[0] == lit_f_text()[0]);
    assert(!is_digit(r5[0]));
    lemma_parse_u64_round_trip(index, r5);
    lemma_parse_lit_round_trip(lit_f_text(), r6);
    lemma_parse_str_round_trip(text, r7);
    assert(spec_parse_end(r7));
}

#[verifier::rlimit(100)]
#[verifier::spinoff_prover]
proof fn lemma_rt_delete(client_id: u64, cell: (u64, u64), start: u64, end: u64)
    ensures
        spec_decode_msg(enc_msg(MsgView::Delete { client_id, cell, start, end }))
            == Option::Some(MsgView::Delete { client_id, cell, start, end }),
{
    reveal(lit_hdr_delete);
    reveal(lit_hdr_init);
    reveal(lit_hdr_insert_rows);
    reveal(lit_hdr_insert);
    reveal(lit_f_cell);
    reveal(lit_f_end);
    reveal(dec_delete_fields);
    let m = MsgView::Delete { client_id, cell, start, end };
    let s = enc_msg(m);
    let r7 = lit_b_rbrace();
    let r6 = dec_rep(end as nat) + r7;
    let r5 = lit_f_end() + r6;
    let r4 = dec_rep(start as nat) + r5;
    let r3 = lit_f_start() + r4;
    let r2 = enc_cell(cell) + r3;
    let r1 = lit_f_cell() + r2;
    let r0 = dec_rep(client_id as nat) + r1;
    assert(s =~= lit_hdr_delete() + r0);
    assert(s[9] == lit_hdr_delete()[9]);
    assert(s[9] == 100);
    assert(lit_hdr_init()[9] == 105);
    assert(lit_hdr_insert_rows()[9] == 105);
    assert(lit_hdr_insert()[9] == 105);
    lemma_not_header(s, lit_hdr_init(), 9);
    lemma_not_header(s, lit_hdr_insert_rows(), 9);
    lemma_not_header(s, lit_hdr_insert(), 9);
    lemma_parse_lit_round_trip(lit_hdr_delete(), r0);
    assert(r1[0] == lit_f_cell()[0]);
    assert(!is_digit(r1[0]));
    lemma_parse_u64_round_trip(client_id, r1);
    lemma_parse_lit_round_trip(lit_f_cell(), r2);
    lemma_parse_cell_round_trip(cell, r3);
    lemma_parse_lit_round_trip(lit_f_start(), r4);
    assert(r5[0] == lit_f_end()[0]);
    assert(!is_digit(r5[0]));
    lemma_parse_u64_round_trip(start, r5);
    lemma_parse_lit_round_trip(lit_f_end(), r6);
    assert(r7[0] == 125);
    assert(!is_digit(r7[0]));
    lemma_parse_u64_round_trip(end, r7);
    assert(spec_parse_end(r7));
}

#[verifier::rlimit(100)]
#[verifier::spinoff_prover]
proof fn lemma_rt_replace(client_id: u64, cell: (u64, u64), start: u64, end: u64,
    text: Seq<u8>)
    ensures
        spec_decode_msg(enc_msg(MsgView::Replace { client_id, cell, start, end, text }))
            == Option::Some(MsgView::Replace { client_id, cell, start, end, text }),
{
    reveal(lit_hdr_replace);
    reveal(lit_hdr_init);
    reveal(lit_hdr_insert_rows);
    reveal(lit_hdr_insert);
    reveal(lit_hdr_delete);
    reveal(lit_f_cell);
    reveal(lit_f_end);
    reveal(lit_f_text);
    reveal(dec_replace_fields);
    let m = MsgView::Replace { client_id, cell, start, end, text };
    let s = enc_msg(m);
    let r9 = lit_b_rbrace();
    let r8 = esc(text) + seq![34u8] + r9;
    let r7 = lit_f_text() + r8;
    let r6 = dec_rep(end as nat) + r7;
    let r5 = lit_f_end() + r6;
    let r4 = dec_rep(start as nat) + r5;
    let r3 = lit_f_start() + r4;
    let r2 = enc_cell(cell) + r3;
    let r1 = lit_f_cell() + r2;
    let r0 = dec_rep(client_id as nat) + r1;
    assert(s =~= lit_hdr_replace() + r0);
    assert(s[9] == lit_hdr_replace()[9]);
    assert(s[9] == 114);
    assert(lit_hdr_init()[9] == 105);
    assert(lit_hdr_insert_rows()[9] == 105);
    assert(lit_hdr_insert()[9] == 105);
    assert(lit_hdr_delete()[9] == 100);
    lemma_not_header(s, lit_hdr_init(), 9);
    lemma_not_header(s, lit_hdr_insert_rows(), 9);
    lemma_not_header(s, lit_hdr_insert(), 9);
    lemma_not_header(s, lit_hdr_delete(), 9);
    lemma_parse_lit_round_trip(lit_hdr_replace(), r0);
    assert(r1[0] == lit_f_cell()[0]);
    assert(!is_digit(r1[0]));
    lemma_parse_u64_round_trip(client_id, r1);
    lemma_parse_lit_round_trip(lit_f_cell(), r2);
    lemma_parse_cell_round_trip(cell, r3);
    lemma_parse_lit_round_trip(lit_f_start(), r4);
    assert(r5[0] == lit_f_end()[0]);
    assert(!is_digit(r5[0]));
    lemma_parse_u64_round_trip(start, r5);
    lemma_parse_lit_round_trip(lit_f_end(), r6);
    assert(r7[0] == lit_f_text()[0]);
    assert(!is_digit(r7[0]));
    lemma_parse_u64_round_trip(end, r7);
    lemma_parse_lit_round_trip(lit_f_text(), r8);
    lemma_parse_str_round_trip(text, r9);
    assert(spec_parse_end(r9));
}

#[verifier::rlimit(100)]
#[verifier::spinoff_prover]
proof fn lemma_rt_acquire_lock(client_id: u64, cell: (u64, u64))
    ensures
        spec_decode_msg(enc_msg(MsgView::AcquireLock { client_id, cell }))
            == Option::Some(MsgView::AcquireLock { client_id, cell }),
{
    reveal(lit_hdr_acquire_lock);
    reveal(lit_hdr_init);
    reveal(lit_hdr_insert_rows);
    reveal(lit_hdr_insert);
    reveal(lit_hdr_delete);
    reveal(lit_hdr_replace);
    reveal(lit_f_cell);
    reveal(dec_acquire_lock_fields);
    let m = MsgView::AcquireLock { client_id, cell };
    let s = enc_msg(m);
    let r3 = lit_b_rbrace();
    let r2 = enc_cell(cell) + r3;
    let r1 = lit_f_cell() + r2;
    let r0 = dec_rep(client_id as nat) + r1;
    assert(s =~= lit_hdr_acquire_lock() + r0);
    assert(s[9] == lit_hdr_acquire_lock()[9]);
    assert(s[9] == 97);
    assert(lit_hdr_init()[9] == 105);
    assert(lit_hdr_insert_rows()[9] == 105);
    assert(lit_hdr_insert()[9] == 105);
    assert(lit_hdr_delete()[9] == 100);
    assert(lit_hdr_replace()[9] == 114);
    lemma_not_header(s, lit_hdr_init(), 9);
    lemma_not_header(s, lit_hdr_insert_rows(), 9);
    lemma_not_header(s, lit_hdr_insert(), 9);
    lemma_not_header(s, lit_hdr_delete(), 9);
    lemma_not_header(s, lit_hdr_replace(), 9);
    lemma_parse_lit_round_trip(lit_hdr_acquire_lock(), r0);
    assert(r1[0] == lit_f_cell()[0]);
    assert(!is_digit(r1[0]));
    lemma_parse_u64_round_trip(client_id, r1);
    lemma_parse_lit_round_trip(lit_f_cell(), r2);
    lemma_parse_cell_round_trip(cell, r3);
    assert(spec_parse_end(r3));
}

#[verifier::rlimit(100)]
#[verifier::spinoff_prover]
proof fn lemma_rt_release_lock(cell: (u64, u64))
    ensures
        spec_decode_msg(enc_msg(MsgView::ReleaseLock { cell }))
            == Option::Some(MsgView::ReleaseLock { cell }),
{
    reveal(lit_hdr_release_lock);
    reveal(lit_hdr_init);
    reveal(lit_hdr_insert_rows);
    reveal(lit_hdr_insert);
    reveal(lit_hdr_delete);
    reveal(lit_hdr_replace);
    reveal(lit_hdr_acquire_lock);
    reveal(dec_release_lock_fields);
    let m = MsgView::ReleaseLock { cell };
    let s = enc_msg(m);
    let r1 = lit_b_rbrace();
    let r0 = enc_cell(cell) + r1;
    assert(s =~= lit_hdr_release_lock() + r0);
    assert(s[9] == lit_hdr_release_lock()[9]);
    assert(s[9] == 114);
    assert(s[11] == lit_hdr_release_lock()[11]);
    assert(s[11] == 108);
    assert(lit_hdr_init()[9] == 105);
    assert(lit_hdr_insert_rows()[9] == 105);
    assert(lit_hdr_insert()[9] == 105);
    assert(lit_hdr_delete()[9] == 100);
    assert(lit_hdr_replace()[11] == 112);
    assert(lit_hdr_acquire_lock()[9] == 97);
    lemma_not_header(s, lit_hdr_init(), 9);
    lemma_not_header(s, lit_hdr_insert_rows(), 9);
    lemma_not_header(s, lit_hdr_insert(), 9);
    lemma_not_header(s, lit_hdr_delete(), 9);
    lemma_not_header(s, lit_hdr_replace(), 11);
    lemma_not_header(s, lit_hdr_acquire_lock(), 9);
    lemma_parse_lit_round_trip(lit_hdr_release_lock(), r0);
    lemma_parse_cell_round_trip(cell, r1);
    assert(spec_parse_end(r1));
}

/// Decoding inverts encoding: for every message of the protocol,
/// parsing its canonical frame yields exactly the message back.
pub proof fn lemma_codec_round_trip(m: MsgView)
    ensures
        spec_decode_msg(enc_msg(m)) == Option::Some(m),
{
    match m {
        MsgView::Init { client_id, table } => lemma_rt_init(client_id, table),
        MsgView::Insert { client_id, cell, index, text } =>
            lemma_rt_insert(client_id, cell, index, text),
        MsgView::Delete { client_id, cell, start, end } =>
            lemma_rt_delete(client_id, cell, start, end),
        MsgView::Replace { client_id, cell, start, end, text } =>
            lemma_rt_replace(client_id, cell, start, end, text),
        MsgView::InsertRows { client_id, insertion_index, num_rows } =>
            lemma_rt_insert_rows(client_id, insertion_index, num_rows),
        MsgView::AcquireLock { client_id, cell } => lemma_rt_acquire_lock(client_id, cell),
        MsgView::ReleaseLock { cell } => lemma_rt_release_lock(cell),
    }
}

proof fn lemma_enc_cells_rest_concat(a: Seq<CellView>, b: Seq<CellView>)
    ensures
        enc_cells_rest(a + b) == enc_cells_rest(a) + enc_cells_rest(b),
    decreases a.len(),
{
    if a.len() == 0 {
        assert(a + b =~= b);
        assert(enc_cells_rest(a) + enc_cells_rest(b) =~= enc_cells_rest(b));
    } else {
        assert((a + b)[0] == a[0]);
        assert((a + b).skip(1) =~= a.skip(1) + b);
        lemma_enc_cells_rest_concat(a.skip(1), b);
        assert(lit_b_comma() + enc_cellview(a[0])
            + (enc_cells_rest(a.skip(1)) + enc_cells_rest(b))
            =~= (lit_b_comma() + enc_cellview(a[0]) + enc_cells_rest(a.skip(1)))
                + enc_cells_rest(b));
    }
}

proof fn lemma_enc_cells_rest_one(c: CellView)
    ensures
        enc_cells_rest(seq![c]) == lit_b_comma() + enc_cellview(c),
{
    assert(seq![c][0] == c);
    assert(seq![c].skip(1) =~= Seq::<CellView>::empty());
    assert(enc_cells_rest(Seq::<CellView>::empty()) == Seq::<u8>::empty());
    assert(lit_b_comma() + enc_cellview(c) + Seq::<u8>::empty()
        =~= lit_b_comma() + enc_cellview(c));
}

proof fn lemma_enc_rows_rest_concat(a: Seq<Seq<CellView>>, b: Seq<Seq<CellView>>)
    ensures
        enc_rows_rest(a + b) == enc_rows_rest(a) + enc_rows_rest(b),
    decreases a.len(),
{
    if a.len() == 0 {
        assert(a + b =~= b);
        assert(enc_rows_rest(a) + enc_rows_rest(b) =~= enc_rows_rest(b));
    } else {
        assert((a + b)[0] == a[0]);
        assert((a + b).skip(1) =~= a.skip(1) + b);
        lemma_enc_rows_rest_concat(a.skip(1), b);
        assert(lit_b_comma() + enc_row(a[0]) + (enc_rows_rest(a.skip(1)) + enc_rows_rest(b))
            =~= (lit_b_comma() + enc_row(a[0]) + enc_rows_rest(a.skip(1))) + enc_rows_rest(b));
    }
}

proof fn lemma_enc_rows_rest_one(row: Seq<CellView>)
    ensures
        enc_rows_rest(seq![row]) == lit_b_comma() + enc_row(row),
{
    assert(seq![row][0] == row);
    assert(seq![row].skip(1) =~= Seq::<Seq<CellView>>::empty());
    assert(enc_rows_rest(Seq::<Seq<CellView>>::empty()) == Seq::<u8>::empty());
    assert(lit_b_comma() + enc_row(row) + Seq::<u8>::empty() =~= lit_b_comma() + enc_row(row));
}

/// Write a cell address, after its opening bracket.
fn write_cell(out: &mut Vec<u8>, rc: (u64, u64))
    ensures
        final(out)@ == old(out)@ + enc_cell(rc),
{
    write_u64(out, rc.0);
    out.push(44);
    write_u64(out, rc.1);
    out.push(93);
    proof {
        assert(out@ =~= old(out)@ + enc_cell(rc));
    }
}

/// Write one snapshot cell of the `Init` table.
fn write_cellview(out: &mut Vec<u8>, c: &TableCellClientView)
    ensures
        final(out)@ == old(out)@ + enc_cellview(c@),
{
    let lv = lit_vec_cv_open();
    push_bytes(out, &lv);
    write_str_body(out, &c.text);
    out.push(34);
    let lo = lit_vec_f_owner();
    push_bytes(out, &lo);
    match &c.owner_id {
        Option::Some(o) => {
            write_u64(out, *o);
        },
        Option::None => {
            let ln = lit_vec_kw_null();
            push_bytes(out, &ln);
        },
    }
    out.push(125);
    proof {
        assert(out@ =~= old(out)@ + enc_cellview(c@));
    }
}

/// Write one row of the `Init` table.
fn write_row(out: &mut Vec<u8>, row: &Vec<TableCellClientView>)
    ensures
        final(out)@ == old(out)@ + enc_row(row@.map_values(|c: TableCellClientView| c@)),
{
    let ghost rv = row@.map_values(|c: TableCellClientView| c@);
    out.push(91);
    if row.len() == 0 {
        out.push(93);
        proof {
            assert(rv.len() == 0);
            assert(out@ =~= old(out)@ + enc_row(rv));
        }
        return;
    }
    write_cellview(out, &row[0]);
    let ghost head = old(out)@ + lit_b_lbracket() + enc_cellview(rv[0]);
    proof {
        assert(out@ =~= head + enc_cells_rest(rv.subrange(1, 1)));
    }
    let mut i: usize = 1;
    while i < row.len()
        invariant
            1 <= i <= row@.len(),
            rv == row@.map_values(|c: TableCellClientView| c@),
            rv.len() == row@.len(),
            head == old(out)@ + lit_b_lbracket() + enc_cellview(rv[0]),
            out@ == head + enc_cells_rest(rv.subrange(1, i as int)),
        decreases row@.len() - i,
    {
        out.push(44);
        write_cellview(out, &row[i]);
        i = i + 1;
        proof {
            assert(rv.subrange(1, i as int) =~= rv.subrange(1, i as int - 1)
                + seq![rv[i as int - 1]]);
            lemma_enc_cells_rest_concat(rv.subrange(1, i as int - 1), seq![rv[i as int - 1]]);
            lemma_enc_cells_rest_one(rv[i as int - 1]);
            assert(out@ =~= head + enc_cells_rest(rv.subrange(1, i as int)));
        }
    }
    out.push(93);
    proof {
        assert(rv.subrange(1, rv.len() as int) =~= rv.skip(1));
        assert(out@ =~= old(out)@ + enc_row(rv));
    }
}

/// Write the whole `Init` table, after its opening bracket.
fn write_table(out: &mut Vec<u8>, table: &Vec<Vec<TableCellClientView>>)
    ensures
        final(out)@ == old(out)@ + enc_table(table_payload_view(table@)),
{
    let ghost tv = table_payload_view(table@);
    if table.len() == 0 {
        out.push(93);
        proof {
            assert(out@ =~= old(out)@ + enc_table(tv));
        }
        return;
    }
    write_row(out, &table[0]);
    let ghost head = old(out)@ + enc_row(tv[0]);
    proof {
        assert(tv[0] == table@[0]@.map_values(|c: TableCellClientView| c@));
        assert(out@ =~= head + enc_rows_rest(tv.subrange(1, 1)));
    }
    let mut i: usize = 1;
    while i < table.len()
        invariant
            1 <= i <= table@.len(),
            tv == table_payload_view(table@),
            tv.len() == table@.len(),
            head == old(out)@ + enc_row(tv[0]),
            out@ == head + enc_rows_rest(tv.subrange(1, i as int)),
        decreases table@.len() - i,
    {
        out.push(44);
        write_row(out, &table[i]);
        i = i + 1;
        proof {
            assert(tv[i as int - 1] == table@[i as int - 1]@.map_values(
                |c: TableCellClientView| c@));
            assert(tv.subrange(1, i as int) =~= tv.subrange(1, i as int - 1)
                + seq![tv[i as int - 1]]);
            lemma_enc_rows_rest_concat(tv.subrange(1, i as int - 1), seq![tv[i as int - 1]]);
            lemma_enc_rows_rest_one(tv[i as int - 1]);
            assert(out@ =~= head + enc_rows_rest(tv.subrange(1, i as int)));
        }
    }
    out.push(93);
    proof {
        assert(tv.subrange(1, tv.len() as int) =~= tv.skip(1));
        assert(out@ =~= old(out)@ + enc_table(tv));
    }
}

/// Encode one message as its canonical JSON frame.
pub fn encode_msg(m: &ClientMessage) -> (out: Vec<u8>)
    ensures
        out@ == enc_msg(m@),
{
    let mut out: Vec<u8> = Vec::new();
    match m {
        ClientMessage::Init { client_id, table } => {
            let lh = lit_vec_hdr_init();
            push_bytes(&mut out, &lh);
            write_u64(&mut out, *client_id);
            let lt = lit_vec_f_table();
            push_bytes(&mut out, &lt);
            write_table(&mut out, table);
            out.push(125);
        },
        ClientMessage::Insert { client_id, cell, index, text } => {
            let lh = lit_vec_hdr_insert();
            push_bytes(&mut out, &lh);
            write_u64(&mut out, *client_id);
            let lc = lit_vec_f_cell();
            push_bytes(&mut out, &lc);
            write_cell(&mut out, *cell);
            let li = lit_vec_f_index();
            push_bytes(&mut out, &li);
            write_u64(&mut out, *index);
            let lt = lit_vec_f_text();
            push_bytes(&mut out, &lt);
            write_str_body(&mut out, text);
            out.push(34);
            out.push(125);
        },
        ClientMessage::Delete { client_id, cell, start, end } => {
            let lh = lit_vec_hdr_delete();
            push_bytes(&mut out, &lh);
            write_u64(&mut out, *client_id);
            let lc = lit_vec_f_cell();
            push_bytes(&mut out, &lc);
            write_cell(&mut out, *cell);
            let ls = lit_vec_f_start();
            push_bytes(&mut out, &ls);
            write_u64(&mut out, *start);
            let le = lit_vec_f_end();
            push_bytes(&mut out, &le);
            write_u64(&mut out, *end);
            out.push(125);
        },
        ClientMessage::Replace { client_id, cell, start, end, text } => {
            let lh = lit_vec_hdr_replace();
            push_bytes(&mut out, &lh);
            write_u64(&mut out, *client_id);
            let lc = lit_vec_f_cell();
            push_bytes(&mut out, &lc);
            write_cell(&mut out, *cell);
            let ls = lit_vec_f_start();
            push_bytes(&mut out, &ls);
            write_u64(&mut out, *start);
            let le = lit_vec_f_end();
            push_bytes(&mut out, &le);
            write_u64(&mut out, *end);
            let lt = lit_vec_f_text();
            push_bytes(&mut out, &lt);
            write_str_body(&mut out, text);
            out.push(34);
            out.push(125);
        },
        ClientMessage::InsertRows { client_id, insertion_index, num_rows } => {
            let lh = lit_vec_hdr_insert_rows();
            push_bytes(&mut out, &lh);
            write_u64(&mut out, *client_id);
            let li = lit_vec_f_insertion_index();
            push_bytes(&mut out, &li);
            write_u64(&mut out, *insertion_index);
            let ln = lit_vec_f_num_rows();
            push_bytes(&mut out, &ln);
            write_u64(&mut out, *num_rows);
            out.push(125);
        },
        ClientMessage::AcquireLock { client_id, cell } => {
            let lh = lit_vec_hdr_acquire_lock();
            push_bytes(&mut out, &lh);
            write_u64(&mut out, *client_id);
            let lc = lit_vec_f_cell();
            push_bytes(&mut out, &lc);
            write_cell(&mut out, *cell);
            out.push(125);
        },
        ClientMessage::ReleaseLock { cell } => {
            let lh = lit_vec_hdr_release_lock();
            push_bytes(&mut out, &lh);
            write_cell(&mut out, *cell);
            out.push(125);
        },
    }
    proof {
        assert(out@ =~= enc_msg(m@));
    }
    out
}

/// Parse a cell address at `pos`, after its opening bracket.
fn parse_cell(s: &[u8], pos: usize) -> (r: Option<((u64, u64), usize)>)
    requires
        pos <= s@.len(),
    ensures
        match r {
            Option::Some(v) => pos < v.1 <= s@.len()
                && spec_parse_cell(s@.skip(pos as int))
                    == Option::Some((v.0, (v.1 - pos) as nat)),
            Option::None => spec_parse_cell(s@.skip(pos as int)) is None,
        },
{
    let ghost suffix = s@.skip(pos as int);
    let (r0, p1) = match parse_u64(s, pos) {
        Option::Some(v) => v,
        Option::None => {
            return Option::None;
        },
    };
    proof {
        assert(suffix.skip((p1 - pos) as int) =~= s@.skip(p1 as int));
    }
    let lc = lit_vec_b_comma();
    let p2 = match match_lit(s, p1, &lc) {
        Option::Some(p) => p,
        Option::None => {
            return Option::None;
        },
    };
    proof {
        assert(s@.skip(p1 as int).skip((p2 - p1) as int) =~= s@.skip(p2 as int));
    }
    let (r1, p3) = match parse_u64(s, p2) {
        Option::Some(v) => v,
        Option::None => {
            return Option::None;
        },
    };
    proof {
        assert(s@.skip(p2 as int).skip((p3 - p2) as int) =~= s@.skip(p3 as int));
    }
    let lr = lit_vec_b_rbracket();
    let p4 = match match_lit(s, p3, &lr) {
        Option::Some(p) => p,
        Option::None => {
            return Option::None;
        },
    };
    Option::Some(((r0, r1), p4))
}

/// Parse one snapshot cell at `pos`.
#[verifier::rlimit(100)]
fn parse_cellview(s: &[u8], pos: usize) -> (r: Option<(TableCellClientView, usize)>)
    requires
        pos <= s@.len(),
    ensures
        match r {
            Option::Some(v) => pos < v.1 <= s@.len()
                && spec_parse_cellview(s@.skip(pos as int))
                    == Option::Some((v.0@, (v.1 - pos) as nat)),
            Option::None => spec_parse_cellview(s@.skip(pos as int)) is None,
        },
{
    proof {
        reveal(spec_parse_cellview);
        reveal(lit_kw_null);
    }
    let ghost suffix = s@.skip(pos as int);
    let lo = lit_vec_cv_open();
    let p1 = match match_lit(s, pos, &lo) {
        Option::Some(p) => p,
        Option::None => {
            return Option::None;
        },
    };
    proof {
        assert(suffix.skip((p1 - pos) as int) =~= s@.skip(p1 as int));
    }
    let (text, p2) = match parse_str_body(s, p1) {
        Option::Some(v) => v,
        Option::None => {
            return Option::None;
        },
    };
    proof {
        assert(s@.skip(p1 as int).skip((p2 - p1) as int) =~= s@.skip(p2 as int));
    }
    let lw = lit_vec_f_owner();
    let p3 = match match_lit(s, p2, &lw) {
        Option::Some(p) => p,
        Option::None => {
            return Option::None;
        },
    };
    proof {
        assert(s@.skip(p2 as int).skip((p3 - p2) as int) =~= s@.skip(p3 as int));
    }
    let ln = lit_vec_kw_null();
    let lb = lit_vec_b_rbrace();
    match match_lit(s, p3, &ln) {
        Option::Some(p4) => {
            proof {
                assert(starts_with(s@.skip(p3 as int), lit_kw_null()));
                assert(s@.skip(p3 as int).skip(4) =~= s@.skip(p4 as int));
            }
            let p5 = match match_lit(s, p4, &lb) {
                Option::Some(p) => p,
                Option::None => {
                    return Option::None;
                },
            };
            Option::Some((TableCellClientView { text, owner_id: Option::None }, p5))
        },
        Option::None => {
            proof {
                assert(!starts_with(s@.skip(p3 as int), lit_kw_null()));
            }
            let (owner, p4) = match parse_u64(s, p3) {
                Option::Some(v) => v,
                Option::None => {
                    return Option::None;
                },
            };
            proof {
                assert(s@.skip(p3 as int).skip((p4 - p3) as int) =~= s@.skip(p4 as int));
            }
            let p5 = match match_lit(s, p4, &lb) {
                Option::Some(p) => p,
                Option::None => {
                    return Option::None;
                },
            };
            Option::Some((TableCellClientView { text, owner_id: Option::Some(owner) }, p5))
        },
    }
}

/// Parse `,cell`* through the row's closing bracket, at `pos`.
fn parse_cells_rest(s: &[u8], pos: usize) -> (r: Option<(Vec<TableCellClientView>, usize)>)
    requires
        pos <= s@.len(),
    ensures
        match r {
            Option::Some(v) => pos < v.1 <= s@.len()
                && spec_parse_cells_rest(s@.skip(pos as int)) == Option::Some((
                    v.0@.map_values(|c: TableCellClientView| c@),
                    (v.1 - pos) as nat,
                )),
            Option::None => spec_parse_cells_rest(s@.skip(pos as int)) is None,
        },
    decreases s@.len() - pos,
{
    let ghost suffix = s@.skip(pos as int);
    if pos == s.len() {
        return Option::None;
    }
    let b = s[pos];
    proof {
        assert(suffix[0] == b);
    }
    if b == 93 {
        let empty: Vec<TableCellClientView> = Vec::new();
        proof {
            assert(empty@.map_values(|c: TableCellClientView| c@)
                =~= Seq::<CellView>::empty());
        }
        return Option::Some((empty, pos + 1));
    }
    if b != 44 {
        return Option::None;
    }
    proof {
        assert(suffix.skip(1) =~= s@.skip(pos as int + 1));
    }
    match parse_cellview(s, pos + 1) {
        Option::Some((c, p1)) => {
            proof {
                assert(suffix.skip((p1 - pos) as int) =~= s@.skip(p1 as int));
            }
            match parse_cells_rest(s, p1) {
                Option::Some((mut t, p2)) => {
                    let ghost prev = t@;
                    t.insert(0, c);
                    proof {
                        assert(t@ =~= seq![c] + prev);
                        assert(t@.map_values(|cc: TableCellClientView| cc@)
                            =~= seq![c@] + prev.map_values(|cc: TableCellClientView| cc@));
                    }
                    Option::Some((t, p2))
                },
                Option::None => Option::None,
            }
        },
        Option::None => Option::None,
    }
}

/// Parse one row at `pos`.
fn parse_row(s: &[u8], pos: usize) -> (r: Option<(Vec<TableCellClientView>, usize)>)
    requires
        pos <= s@.len(),
    ensures
        match r {
            Option::Some(v) => pos < v.1 <= s@.len()
                && spec_parse_row(s@.skip(pos as int)) == Option::Some((
                    v.0@.map_values(|c: TableCellClientView| c@),
                    (v.1 - pos) as nat,
                )),
            Option::None => spec_parse_row(s@.skip(pos as int)) is None,
        },
{
    let ghost suffix = s@.skip(pos as int);
    if s.len() - pos < 2 {
        proof {
            assert(suffix.len() < 2);
        }
        return Option::None;
    }
    proof {
        assert(suffix[0] == s@[pos as int]);
        assert(suffix[1] == s@[pos as int + 1]);
    }
    if s[pos] != 91 {
        return Option::None;
    }
    if s[pos + 1] == 93 {
        let empty: Vec<TableCellClientView> = Vec::new();
        proof {
            assert(empty@.map_values(|c: TableCellClientView| c@)
                =~= Seq::<CellView>::empty());
        }
        return Option::Some((empty, pos + 2));
    }
    proof {
        assert(suffix.skip(1) =~= s@.skip(pos as int + 1));
    }
    match parse_cellview(s, pos + 1) {
        Option::Some((c, p1)) => {
            proof {
                assert(suffix.skip((p1 - pos) as int) =~= s@.skip(p1 as int));
            }
            match parse_cells_rest(s, p1) {
                Option::Some((mut t, p2)) => {
                    let ghost prev = t@;
                    t.insert(0, c);
                    proof {
                        assert(t@ =~= seq![c] + prev);
                        assert(t@.map_values(|cc: TableCellClientView| cc@)
                            =~= seq![c@] + prev.map_values(|cc: TableCellClientView| cc@));
                    }
                    Option::Some((t, p2))
                },
                Option::None => Option::None,
            }
        },
        Option::None => Option::None,
    }
}

/// The views of a list of parsed rows.
pub open spec fn rows_payload_view(rows: Seq<Vec<TableCellClientView>>) -> Seq<Seq<CellView>> {
    rows.map_values(|row: Vec<TableCellClientView>| row@.map_values(
        |c: TableCellClientView| c@))
}

/// Parse `,row`* through the table's closing bracket, at `pos`.
fn parse_rows_rest(s: &[u8], pos: usize) -> (r: Option<(Vec<Vec<TableCellClientView>>, usize)>)
    requires
        pos <= s@.len(),
    ensures
        match r {
            Option::Some(v) => pos < v.1 <= s@.len()
                && spec_parse_rows_rest(s@.skip(pos as int)) == Option::Some((
                    rows_payload_view(v.0@),
                    (v.1 - pos) as nat,
                )),
            Option::None => spec_parse_rows_rest(s@.skip(pos as int)) is None,
        },
    decreases s@.len() - pos,
{
    let ghost suffix = s@.skip(pos as int);
    if pos == s.len() {
        return Option::None;
    }
    let b = s[pos];
    proof {
        assert(suffix[0] == b);
    }
    if b == 93 {
        let empty: Vec<Vec<TableCellClientView>> = Vec::new();
        proof {
            assert(rows_payload_view(empty@) =~= Seq::<Seq<CellView>>::empty());
        }
        return Option::Some((empty, pos + 1));
    }
    if b != 44 {
        return Option::None;
    }
    proof {
        assert(suffix.skip(1) =~= s@.skip(pos as int + 1));
    }
    match parse_row(s, pos + 1) {
        Option::Some((row, p1)) => {
            proof {
                assert(suffix.skip((p1 - pos) as int) =~= s@.skip(p1 as int));
            }
            match parse_rows_rest(s, p1) {
                Option::Some((mut t, p2)) => {
                    let ghost prev = t@;
                    let ghost rowv = row@.map_values(|c: TableCellClientView| c@);
                    t.insert(0, row);
                    proof {
                        assert(t@ =~= seq![t@[0]] + prev);
                        assert(rows_payload_view(t@) =~= seq![rowv]
                            + rows_payload_view(prev));
                    }
                    Option::Some((t, p2))
                },
                Option::None => Option::None,
            }
        },
        Option::None => Option::None,
    }
}

/// Parse a table after its opening bracket, at `pos`.
fn parse_table(s: &[u8], pos: usize) -> (r: Option<(Vec<Vec<TableCellClientView>>, usize)>)
    requires
        pos <= s@.len(),
    ensures
        match r {
            Option::Some(v) => pos < v.1 <= s@.len()
                && spec_parse_table(s@.skip(pos as int)) == Option::Some((
                    rows_payload_view(v.0@),
                    (v.1 - pos) as nat,
                )),
            Option::None => spec_parse_table(s@.skip(pos as int)) is None,
        },
{
    let ghost suffix = s@.skip(pos as int);
    if pos == s.len() {
        return Option::None;
    }
    proof {
        assert(suffix[0] == s@[pos as int]);
    }
    if s[pos] == 93 {
        let empty: Vec<Vec<TableCellClientView>> = Vec::new();
        proof {
            assert(rows_payload_view(empty@) =~= Seq::<Seq<CellView>>::empty());
        }
        return Option::Some((empty, pos + 1));
    }
    match parse_row(s, pos) {
        Option::Some((row, p1)) => {
            proof {
                assert(suffix.skip((p1 - pos) as int) =~= s@.skip(p1 as int));
            }
            match parse_rows_rest(s, p1) {
                Option::Some((mut t, p2)) => {
                    let ghost prev = t@;
                    let ghost rowv = row@.map_values(|c: TableCellClientView| c@);
                    t.insert(0, row);
                    proof {
                        assert(t@ =~= seq![t@[0]] + prev);
                        assert(rows_payload_view(t@) =~= seq![rowv]
                            + rows_payload_view(prev));
                    }
                    Option::Some((t, p2))
                },
                Option::None => Option::None,
            }
        },
        Option::None => Option::None,
    }
}

/// Whether `pos` is the final `}` of the frame.
fn at_end(s: &[u8], pos: usize) -> (r: bool)
    requires
        pos <= s@.len(),
    ensures
        r == spec_parse_end(s@.skip(pos as int)),
{
    if s.len() - pos == 1 && s[pos] == 125 {
        proof {
            assert(s@.skip(pos as int)[0] == s@[pos as int]);
        }
        true
    } else {
        proof {
            if s@.skip(pos as int).len() == 1 {
                assert(s@.skip(pos as int)[0] == s@[pos as int]);
            }
        }
        false
    }
}

#[verifier::rlimit(100)]
#[verifier::spinoff_prover]
fn decode_insert_fields(s: &[u8], pos: usize) -> (r: Option<ClientMessage>)
    requires
        pos <= s@.len(),
    ensures
        match r {
            Option::Some(m) => dec_insert_fields(s@.skip(pos as int)) == Option::Some(m@),
            Option::None => dec_insert_fields(s@.skip(pos as int)) is None,
        },
{
    proof {
        reveal(dec_insert_fields);
    }
    let ghost suffix = s@.skip(pos as int);
    let (client_id, p1) = match parse_u64(s, pos) {
        Option::Some(v) => v,
        Option::None => {
            return Option::None;
        },
    };
    proof {
        assert(suffix.skip((p1 - pos) as int) =~= s@.skip(p1 as int));
    }
    let lc = lit_vec_f_cell();
    let p2 = match match_lit(s, p1, &lc) {
        Option::Some(p) => p,
        Option::None => {
            return Option::None;
        },
    };
    proof {
        assert(s@.skip(p1 as int).skip((p2 - p1) as int) =~= s@.skip(p2 as int));
    }
    let (cell, p3) = match parse_cell(s, p2) {
        Option::Some(v) => v,
        Option::None => {
            return Option::None;
        },
    };
    proof {
        assert(s@.skip(p2 as int).skip((p3 - p2) as int) =~= s@.skip(p3 as int));
    }
    let li = lit_vec_f_index();
    let p4 = match match_lit(s, p3, &li) {
        Option::Some(p) => p,
        Option::None => {
            return Option::None;
        },
    };
    proof {
        assert(s@.skip(p3 as int).skip((p4 - p3) as int) =~= s@.skip(p4 as int));
    }
    let (index, p5) = match parse_u64(s, p4) {
        Option::Some(v) => v,
        Option::None => {
            return Option::None;
        },
    };
    proof {
        assert(s@.skip(p4 as int).skip((p5 - p4) as int) =~= s@.skip(p5 as int));
    }
    let lt = lit_vec_f_text();
    let p6 = match match_lit(s, p5, &lt) {
        Option::Some(p) => p,
        Option::None => {
            return Option::None;
        },
    };
    proof {
        assert(s@.skip(p5 as int).skip((p6 - p5) as int) =~= s@.skip(p6 as int));
    }
    let (text, p7) = match parse_str_body(s, p6) {
        Option::Some(v) => v,
        Option::None => {
            return Option::None;
        },
    };
    proof {
        assert(s@.skip(p6 as int).skip((p7 - p6) as int) =~= s@.skip(p7 as int));
    }
    if at_end(s, p7) {
        Option::Some(ClientMessage::Insert { client_id, cell, index, text })
    } else {
        Option::None
    }
}

#[verifier::rlimit(100)]
#[verifier::spinoff_prover]
fn decode_delete_fields(s: &[u8], pos: usize) -> (r: Option<ClientMessage>)
    requires
        pos <= s@.len(),
    ensures
        match r {
            Option::Some(m) => dec_delete_fields(s@.skip(pos as int)) == Option::Some(m@),
            Option::None => dec_delete_fields(s@.skip(pos as int)) is None,
        },
{
    proof {
        reveal(dec_delete_fields);
    }
    let ghost suffix = s@.skip(pos as int);
    let (client_id, p1) = match parse_u64(s, pos) {
        Option::Some(v) => v,
        Option::None => {
            return Option::None;
        },
    };
    proof {
        assert(suffix.skip((p1 - pos) as int) =~= s@.skip(p1 as int));
    }
    let lc = lit_vec_f_cell();
    let p2 = match match_lit(s, p1, &lc) {
        Option::Some(p) => p,
        Option::None => {
            return Option::None;
        },
    };
    proof {
        assert(s@.skip(p1 as int).skip((p2 - p1) as int) =~= s@.skip(p2 as int));
    }
    let (cell, p3) = match parse_cell(s, p2) {
        Option::Some(v) => v,
        Option::None => {
            return Option::None;
        },
    };
    proof {
        assert(s@.skip(p2 as int).skip((p3 - p2) as int) =~= s@.skip(p3 as int));
    }
    let ls = lit_vec_f_start();
    let p4 = match match_lit(s, p3, &ls) {
        Option::Some(p) => p,
        Option::None => {
            return Option::None;
        },
    };
    proof {
        assert(s@.skip(p3 as int).skip((p4 - p3) as int) =~= s@.skip(p4 as int));
    }
    let (start, p5) = match parse_u64(s, p4) {
        Option::Some(v) => v,
        Option::None => {
            return Option::None;
        },
    };
    proof {
        assert(s@.skip(p4 as int).skip((p5 - p4) as int) =~= s@.skip(p5 as int));
    }
    let le = lit_vec_f_end();
    let p6 = match match_lit(s, p5, &le) {
        Option::Some(p) => p,
        Option::None => {
            return Option::None;
        },
    };
    proof {
        assert(s@.skip(p5 as int).skip((p6 - p5) as int) =~= s@.skip(p6 as int));
    }
    let (end, p7) = match parse_u64(s, p6) {
        Option::Some(v) => v,
        Option::None => {
            return Option::None;
        },
    };
    proof {
        assert(s@.skip(p6 as int).skip((p7 - p6) as int) =~= s@.skip(p7 as int));
    }
    if at_end(s, p7) {
        Option::Some(ClientMessage::Delete { client_id, cell, start, end })
    } else {
        Option::None
    }
}

#[verifier::rlimit(100)]
#[verifier::spinoff_prover]
fn decode_replace_fields(s: &[u8], pos: usize) -> (r: Option<ClientMessage>)
    requires
        pos <= s@.len(),
    ensures
        match r {
            Option::Some(m) => dec_replace_fields(s@.skip(pos as int)) == Option::Some(m@),
            Option::None => dec_replace_fields(s@.skip(pos as int)) is None,
        },
{
    proof {
        reveal(dec_replace_fields);
    }
    let ghost suffix = s@.skip(pos as int);
    let (client_id, p1) = match parse_u64(s, pos) {
        Option::Some(v) => v,
        Option::None => {
            return Option::None;
        },
    };
    proof {
        assert(suffix.skip((p1 - pos) as int) =~= s@.skip(p1 as int));
    }
    let lc = lit_vec_f_cell();
    let p2 = match match_lit(s, p1, &lc) {
        Option::Some(p) => p,
        Option::None => {
            return Option::None;
        },
    };
    proof {
        assert(s@.skip(p1 as int).skip((p2 - p1) as int) =~= s@.skip(p2 as int));
    }
    let (cell, p3) = match parse_cell(s, p2) {
        Option::Some(v) => v,
        Option::None => {
            return Option::None;
        },
    };
    proof {
        assert(s@.skip(p2 as int).skip((p3 - p2) as int) =~= s@.skip(p3 as int));
    }
    let ls = lit_vec_f_start();
    let p4 = match match_lit(s, p3, &ls) {
        Option::Some(p) => p,
        Option::None => {
            return Option::None;
        },
    };
    proof {
        assert(s@.skip(p3 as int).skip((p4 - p3) as int) =~= s@.skip(p4 as int));
    }
    let (start, p5) = match parse_u64(s, p4) {
        Option::Some(v) => v,
        Option::None => {
            return Option::None;
        },
    };
    proof {
        assert(s@.skip(p4 as int).skip((p5 - p4) as int) =~= s@.skip(p5 as int));
    }
    let le = lit_vec_f_end();
    let p6 = match match_lit(s, p5, &le) {
        Option::Some(p) => p,
        Option::None => {
            return Option::None;
        },
    };
    proof {
        assert(s@.skip(p5 as int).skip((p6 - p5) as int) =~= s@.skip(p6 as int));
    }
    let (end, p7) = match parse_u64(s, p6) {
        Option::Some(v) => v,
        Option::None => {
            return Option::None;
        },
    };
    proof {
        assert(s@.skip(p6 as int).skip((p7 - p6) as int) =~= s@.skip(p7 as int));
    }
    let lt = lit_vec_f_text();
    let p8 = match match_lit(s, p7, &lt) {
        Option::Some(p) => p,
        Option::None => {
            return Option::None;
        },
    };
    proof {
        assert(s@.skip(p7 as int).skip((p8 - p7) as int) =~= s@.skip(p8 as int));
    }
    let (text, p9) = match parse_str_body(s, p8) {
        Option::Some(v) => v,
        Option::None => {
            return Option::None;
        },
    };
    proof {
        assert(s@.skip(p8 as int).skip((p9 - p8) as int) =~= s@.skip(p9 as int));
    }
    if at_end(s, p9) {
        Option::Some(ClientMessage::Replace { client_id, cell, start, end, text })
    } else {
        Option::None
    }
}

#[verifier::rlimit(100)]
#[verifier::spinoff_prover]
fn decode_insert_rows_fields(s: &[u8], pos: usize) -> (r: Option<ClientMessage>)
    requires
        pos <= s@.len(),
    ensures
        match r {
            Option::Some(m) => dec_insert_rows_fields(s@.skip(pos as int))
                == Option::Some(m@),
            Option::None => dec_insert_rows_fields(s@.skip(pos as int)) is None,
        },
{
    proof {
        reveal(dec_insert_rows_fields);
    }
    let ghost suffix = s@.skip(pos as int);
    let (client_id, p1) = match parse_u64(s, pos) {
        Option::Some(v) => v,
        Option::None => {
            return Option::None;
        },
    };
    proof {
        assert(suffix.skip((p1 - pos) as int) =~= s@.skip(p1 as int));
    }
    let li = lit_vec_f_insertion_index();
    let p2 = match match_lit(s, p1, &li) {
        Option::Some(p) => p,
        Option::None => {
            return Option::None;
        },
    };
    proof {
        assert(s@.skip(p1 as int).skip((p2 - p1) as int) =~= s@.skip(p2 as int));
    }
    let (insertion_index, p3) = match parse_u64(s, p2) {
        Option::Some(v) => v,
        Option::None => {
            return Option::None;
        },
    };
    proof {
        assert(s@.skip(p2 as int).skip((p3 - p2) as int) =~= s@.skip(p3 as int));
    }
    let ln = lit_vec_f_num_rows();
    let p4 = match match_lit(s, p3, &ln) {
        Option::Some(p) => p,
        Option::None => {
            return Option::None;
        },
    };
    proof {
        assert(s@.skip(p3 as int).skip((p4 - p3) as int) =~= s@.skip(p4 as int));
    }
    let (num_rows, p5) = match parse_u64(s, p4) {
        Option::Some(v) => v,
        Option::None => {
            return Option::None;
        },
    };
    proof {
        assert(s@.skip(p4 as int).skip((p5 - p4) as int) =~= s@.skip(p5 as int));
    }
    if at_end(s, p5) {
        Option::Some(ClientMessage::InsertRows { client_id, insertion_index, num_rows })
    } else {
        Option::None
    }
}

#[verifier::rlimit(100)]
#[verifier::spinoff_prover]
fn decode_acquire_lock_fields(s: &[u8], pos: usize) -> (r: Option<ClientMessage>)
    requires
        pos <= s@.len(),
    ensures
        match r {
            Option::Some(m) => dec_acquire_lock_fields(s@.skip(pos as int))
                == Option::Some(m@),
            Option::None => dec_acquire_lock_fields(s@.skip(pos as int)) is None,
        },
{
    proof {
        reveal(dec_acquire_lock_fields);
    }
    let ghost suffix = s@.skip(pos as int);
    let (client_id, p1) = match parse_u64(s, pos) {
        Option::Some(v) => v,
        Option::None => {
            return Option::None;
        },
    };
    proof {
        assert(suffix.skip((p1 - pos) as int) =~= s@.skip(p1 as int));
    }
    let lc = lit_vec_f_cell();
    let p2 = match match_lit(s, p1, &lc) {
        Option::Some(p) => p,
        Option::None => {
            return Option::None;
        },
    };
    proof {
        assert(s@.skip(p1 as int).skip((p2 - p1) as int) =~= s@.skip(p2 as int));
    }
    let (cell, p3) = match parse_cell(s, p2) {
        Option::Some(v) => v,
        Option::None => {
            return Option::None;
        },
    };
    proof {
        assert(s@.skip(p2 as int).skip((p3 - p2) as int) =~= s@.skip(p3 as int));
    }
    if at_end(s, p3) {
        Option::Some(ClientMessage::AcquireLock { client_id, cell })
    } else {
        Option::None
    }
}

#[verifier::rlimit(100)]
#[verifier::spinoff_prover]
fn decode_release_lock_fields(s: &[u8], pos: usize) -> (r: Option<ClientMessage>)
    requires
        pos <= s@.len(),
    ensures
        match r {
            Option::Some(m) => dec_release_lock_fields(s@.skip(pos as int))
                == Option::Some(m@),
            Option::None => dec_release_lock_fields(s@.skip(pos as int)) is None,
        },
{
    proof {
        reveal(dec_release_lock_fields);
    }
    let ghost suffix = s@.skip(pos as int);
    let (cell, p1) = match parse_cell(s, pos) {
        Option::Some(v) => v,
        Option::None => {
            return Option::None;
        },
    };
    proof {
        assert(suffix.skip((p1 - pos) as int) =~= s@.skip(p1 as int));
    }
    if at_end(s, p1) {
        Option::Some(ClientMessage::ReleaseLock { cell })
    } else {
        Option::None
    }
}

#[verifier::rlimit(100)]
#[verifier::spinoff_prover]
fn decode_init_fields(s: &[u8], pos: usize) -> (r: Option<ClientMessage>)
    requires
        pos <= s@.len(),
    ensures
        match r {
            Option::Some(m) => dec_init_fields(s@.skip(pos as int)) == Option::Some(m@),
            Option::None => dec_init_fields(s@.skip(pos as int)) is None,
        },
{
    proof {
        reveal(dec_init_fields);
    }
    let ghost suffix = s@.skip(pos as int);
    let (client_id, p1) = match parse_u64(s, pos) {
        Option::Some(v) => v,
        Option::None => {
            return Option::None;
        },
    };
    proof {
        assert(suffix.skip((p1 - pos) as int) =~= s@.skip(p1 as int));
    }
    let lt = lit_vec_f_table();
    let p2 = match match_lit(s, p1, &lt) {
        Option::Some(p) => p,
        Option::None => {
            return Option::None;
        },
    };
    proof {
        assert(s@.skip(p1 as int).skip((p2 - p1) as int) =~= s@.skip(p2 as int));
    }
    let (table, p3) = match parse_table(s, p2) {
        Option::Some(v) => v,
        Option::None => {
            return Option::None;
        },
    };
    proof {
        assert(s@.skip(p2 as int).skip((p3 - p2) as int) =~= s@.skip(p3 as int));
    }
    if at_end(s, p3) {
        proof {
            assert(rows_payload_view(table@) == table_payload_view(table@));
        }
        Option::Some(ClientMessage::Init { client_id, table })
    } else {
        Option::None
    }
}

/// Decode one frame: the message when the frame is a canonical
/// encoding, `None` otherwise. The connection handler silently drops
/// a `None`.
pub fn decode_msg(s: &[u8]) -> (r: Option<ClientMessage>)
    ensures
        match r {
            Option::Some(m) => spec_decode_msg(s@) == Option::Some(m@),
            Option::None => spec_decode_msg(s@) is None,
        },
{
    proof {
        assert(s@.skip(0) =~= s@);
    }
    let lh_init = lit_vec_hdr_init();
    if let Option::Some(p) = match_lit(s, 0, &lh_init) {
        return decode_init_fields(s, p);
    }
    let lh_insert_rows = lit_vec_hdr_insert_rows();
    if let Option::Some(p) = match_lit(s, 0, &lh_insert_rows) {
        return decode_insert_rows_fields(s, p);
    }
    let lh_insert = lit_vec_hdr_insert();
    if let Option::Some(p) = match_lit(s, 0, &lh_insert) {
        return decode_insert_fields(s, p);
    }
    let lh_delete = lit_vec_hdr_delete();
    if let Option::Some(p) = match_lit(s, 0, &lh_delete) {
        return decode_delete_fields(s, p);
    }
    let lh_replace = lit_vec_hdr_replace();
    if let Option::Some(p) = match_lit(s, 0, &lh_replace) {
        return decode_replace_fields(s, p);
    }
    let lh_acquire = lit_vec_hdr_acquire_lock();
    if let Option::Some(p) = match_lit(s, 0, &lh_acquire) {
        return decode_acquire_lock_fields(s, p);
    }
    let lh_release = lit_vec_hdr_release_lock();
    if let Option::Some(p) = match_lit(s, 0, &lh_release) {
        return decode_release_lock_fields(s, p);
    }
    Option::None
}

} // verus!
