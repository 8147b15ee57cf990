//! Static dictionaries and escape-based token substitution.
//!
//! An escape byte `esc` (chosen as the least frequent byte of the input) marks substitutions:
//! `[esc, k]` stands for token `k` (k < 254), `[esc, 0xFF]` for a literal `esc`, and every other
//! byte stands for itself.
use vstd::prelude::*;

use crate::buf::{append_slice, copy_bytes};
use crate::error::{CodropError, CodropResult};

verus! {

pub const DICT_ID_JSON: u16 = 0x0001;
pub const DICT_ID_WEB: u16 = 0x0002;
pub const DICT_VERSION_CURRENT: u8 = 1;
pub const MAX_DICT_TOKENS: usize = 254;
pub const ESC_LITERAL_TAG: u8 = 0xFF;

/// Tokens 0..8 of the json dictionary.
pub open spec fn spec_json_dict_v1_part0() -> Seq<Seq<u8>> {
    seq![
        seq![0x22u8, 0x69u8, 0x64u8, 0x22u8, 0x3au8],
        seq![0x22u8, 0x6eu8, 0x61u8, 0x6du8, 0x65u8, 0x22u8, 0x3au8],
        seq![0x22u8, 0x74u8, 0x79u8, 0x70u8, 0x65u8, 0x22u8, 0x3au8],
        seq![0x22u8, 0x73u8, 0x74u8, 0x61u8, 0x74u8, 0x75u8, 0x73u8, 0x22u8, 0x3au8],
        seq![0x22u8, 0x76u8, 0x61u8, 0x6cu8, 0x75u8, 0x65u8, 0x22u8, 0x3au8],
        seq![0x22u8, 0x64u8, 0x65u8, 0x73u8, 0x63u8, 0x72u8, 0x69u8, 0x70u8, 0x74u8, 0x69u8, 0x6fu8, 0x6eu8, 0x22u8, 0x3au8],
        seq![0x22u8, 0x74u8, 0x69u8, 0x74u8, 0x6cu8, 0x65u8, 0x22u8, 0x3au8],
        seq![0x22u8, 0x64u8, 0x61u8, 0x74u8, 0x61u8, 0x22u8, 0x3au8],
    ]
}

/// Tokens 8..16 of the json dictionary.
pub open spec fn spec_json_dict_v1_part1() -> Seq<Seq<u8>> {
    seq![
        seq![0x22u8, 0x69u8, 0x74u8, 0x65u8, 0x6du8, 0x73u8, 0x22u8, 0x3au8],
        seq![0x22u8, 0x65u8, 0x72u8, 0x72u8, 0x6fu8, 0x72u8, 0x22u8, 0x3au8],
        seq![0x22u8, 0x6du8, 0x65u8, 0x73u8, 0x73u8, 0x61u8, 0x67u8, 0x65u8, 0x22u8, 0x3au8],
        seq![0x22u8, 0x63u8, 0x6fu8, 0x64u8, 0x65u8, 0x22u8, 0x3au8],
        seq![0x22u8, 0x73u8, 0x75u8, 0x63u8, 0x63u8, 0x65u8, 0x73u8, 0x73u8, 0x22u8, 0x3au8],
        seq![0x22u8, 0x63u8, 0x72u8, 0x65u8, 0x61u8, 0x74u8, 0x65u8, 0x64u8, 0x5fu8, 0x61u8, 0x74u8, 0x22u8, 0x3au8],
        seq![0x22u8, 0x75u8, 0x70u8, 0x64u8, 0x61u8, 0x74u8, 0x65u8, 0x64u8, 0x5fu8, 0x61u8, 0x74u8, 0x22u8, 0x3au8],
        seq![0x22u8, 0x74u8, 0x69u8, 0x6du8, 0x65u8, 0x73u8, 0x74u8, 0x61u8, 0x6du8, 0x70u8, 0x22u8, 0x3au8],
    ]
}

/// Tokens 16..24 of the json dictionary.
pub open spec fn spec_json_dict_v1_part2() -> Seq<Seq<u8>> {
    seq![
        seq![0x22u8, 0x76u8, 0x65u8, 0x72u8, 0x73u8, 0x69u8, 0x6fu8, 0x6eu8, 0x22u8, 0x3au8],
        seq![0x22u8, 0x65u8, 0x6eu8, 0x61u8, 0x62u8, 0x6cu8, 0x65u8, 0x64u8, 0x22u8, 0x3au8],
        seq![0x22u8, 0x63u8, 0x6fu8, 0x75u8, 0x6eu8, 0x74u8, 0x22u8, 0x3au8],
        seq![0x22u8, 0x74u8, 0x6fu8, 0x74u8, 0x61u8, 0x6cu8, 0x22u8, 0x3au8],
        seq![0x22u8, 0x72u8, 0x65u8, 0x73u8, 0x75u8, 0x6cu8, 0x74u8, 0x73u8, 0x22u8, 0x3au8],
        seq![0x22u8, 0x70u8, 0x72u8, 0x6fu8, 0x70u8, 0x65u8, 0x72u8, 0x74u8, 0x69u8, 0x65u8, 0x73u8, 0x22u8, 0x3au8],
        seq![0x22u8, 0x61u8, 0x74u8, 0x74u8, 0x72u8, 0x69u8, 0x62u8, 0x75u8, 0x74u8, 0x65u8, 0x73u8, 0x22u8, 0x3au8],
        seq![0x22u8, 0x63u8, 0x6fu8, 0x6eu8, 0x66u8, 0x69u8, 0x67u8, 0x22u8, 0x3au8],
    ]
}

/// Tokens 24..32 of the json dictionary.
pub open spec fn spec_json_dict_v1_part3() -> Seq<Seq<u8>> {
    seq![
        seq![0x22u8, 0x6fu8, 0x70u8, 0x74u8, 0x69u8, 0x6fu8, 0x6eu8, 0x73u8, 0x22u8, 0x3au8],
        seq![0x22u8, 0x65u8, 0x6du8, 0x61u8, 0x69u8, 0x6cu8, 0x22u8, 0x3au8],
        seq![0x22u8, 0x75u8, 0x73u8, 0x65u8, 0x72u8, 0x22u8, 0x3au8],
        seq![0x22u8, 0x72u8, 0x6fu8, 0x6cu8, 0x65u8, 0x22u8, 0x3au8],
        seq![0x22u8, 0x74u8, 0x6fu8, 0x6bu8, 0x65u8, 0x6eu8, 0x22u8, 0x3au8],
        seq![0x22u8, 0x61u8, 0x63u8, 0x74u8, 0x69u8, 0x76u8, 0x65u8, 0x22u8, 0x3au8],
        seq![0x22u8, 0x74u8, 0x72u8, 0x75u8, 0x65u8, 0x22u8],
        seq![0x22u8, 0x66u8, 0x61u8, 0x6cu8, 0x73u8, 0x65u8, 0x22u8],
    ]
}

/// Tokens 32..40 of the json dictionary.
pub open spec fn spec_json_dict_v1_part4() -> Seq<Seq<u8>> {
    seq![
        seq![0x22u8, 0x6eu8, 0x75u8, 0x6cu8, 0x6cu8, 0x22u8],
        seq![0x3au8, 0x20u8, 0x74u8, 0x72u8, 0x75u8, 0x65u8],
        seq![0x3au8, 0x20u8, 0x66u8, 0x61u8, 0x6cu8, 0x73u8, 0x65u8],
        seq![0x3au8, 0x20u8, 0x6eu8, 0x75u8, 0x6cu8, 0x6cu8],
        seq![0x3au8, 0x20u8, 0x22u8, 0x22u8],
        seq![0x3au8, 0x20u8, 0x5bu8, 0x5du8],
        seq![0x3au8, 0x20u8, 0x7bu8, 0x7du8],
        seq![0x3au8, 0x20u8, 0x22u8],
    ]
}

/// Tokens 40..48 of the json dictionary.
pub open spec fn spec_json_dict_v1_part5() -> Seq<Seq<u8>> {
    seq![
        seq![0x22u8, 0x2cu8, 0x20u8, 0x22u8],
        seq![0x22u8, 0x2cu8, 0x0au8],
        seq![0x22u8, 0x2cu8, 0x0du8, 0x0au8],
        seq![0x7du8, 0x2cu8, 0x0au8],
        seq![0x7du8, 0x2cu8, 0x0du8, 0x0au8],
        seq![0x5du8, 0x2cu8, 0x0au8],
        seq![0x5du8, 0x2cu8, 0x0du8, 0x0au8],
        seq![0x7bu8, 0x0au8, 0x20u8, 0x20u8, 0x22u8],
    ]
}

/// Tokens 48..56 of the json dictionary.
pub open spec fn spec_json_dict_v1_part6() -> Seq<Seq<u8>> {
    seq![
        seq![0x7bu8, 0x0du8, 0x0au8, 0x20u8, 0x20u8, 0x22u8],
        seq![0x20u8, 0x20u8, 0x20u8, 0x20u8, 0x22u8],
        seq![0x20u8, 0x20u8, 0x22u8],
        seq![0x22u8, 0x7du8],
        seq![0x22u8, 0x5du8],
        seq![0x68u8, 0x74u8, 0x74u8, 0x70u8, 0x3au8, 0x2fu8, 0x2fu8],
        seq![0x68u8, 0x74u8, 0x74u8, 0x70u8, 0x73u8, 0x3au8, 0x2fu8, 0x2fu8],
        seq![0x61u8, 0x70u8, 0x70u8, 0x6cu8, 0x69u8, 0x63u8, 0x61u8, 0x74u8, 0x69u8, 0x6fu8, 0x6eu8, 0x2fu8, 0x6au8, 0x73u8, 0x6fu8, 0x6eu8],
    ]
}

/// The static json dictionary (version 1).
#[verifier::opaque]
pub open spec fn spec_json_dict_v1() -> Seq<Seq<u8>> {
    spec_json_dict_v1_part0() + spec_json_dict_v1_part1() + spec_json_dict_v1_part2() + spec_json_dict_v1_part3() + spec_json_dict_v1_part4() + spec_json_dict_v1_part5() + spec_json_dict_v1_part6()
}

/// Append a copy of `t` to the token table `d`.
fn push_token(d: &mut Vec<Vec<u8>>, t: &[u8])
    ensures
        final(d).deep_view() == old(d).deep_view().push(t@),
{
    let v = copy_bytes(t);
    assert(v.deep_view() =~= t@);
    d.push(v);
    assert(final(d).deep_view() =~= old(d).deep_view().push(t@));
}

/// Append tokens of part 0 of the json dictionary.
fn json_dict_v1_part0(d: &mut Vec<Vec<u8>>)
    ensures
        final(d).deep_view() == old(d).deep_view() + spec_json_dict_v1_part0(),
{
    let ghost d0 = d.deep_view();
    push_token(d, &[0x22u8, 0x69u8, 0x64u8, 0x22u8, 0x3au8]); // "id":
    push_token(d, &[0x22u8, 0x6eu8, 0x61u8, 0x6du8, 0x65u8, 0x22u8, 0x3au8]); // "name":
    push_token(d, &[0x22u8, 0x74u8, 0x79u8, 0x70u8, 0x65u8, 0x22u8, 0x3au8]); // "type":
    push_token(d, &[0x22u8, 0x73u8, 0x74u8, 0x61u8, 0x74u8, 0x75u8, 0x73u8, 0x22u8, 0x3au8]); // "status":
    push_token(d, &[0x22u8, 0x76u8, 0x61u8, 0x6cu8, 0x75u8, 0x65u8, 0x22u8, 0x3au8]); // "value":
    push_token(d, &[0x22u8, 0x64u8, 0x65u8, 0x73u8, 0x63u8, 0x72u8, 0x69u8, 0x70u8, 0x74u8, 0x69u8, 0x6fu8, 0x6eu8, 0x22u8, 0x3au8]); // "description":
    push_token(d, &[0x22u8, 0x74u8, 0x69u8, 0x74u8, 0x6cu8, 0x65u8, 0x22u8, 0x3au8]); // "title":
    push_token(d, &[0x22u8, 0x64u8, 0x61u8, 0x74u8, 0x61u8, 0x22u8, 0x3au8]); // "data":
    assert(d.deep_view() =~= d0 + spec_json_dict_v1_part0());
}

/// Append tokens of part 1 of the json dictionary.
fn json_dict_v1_part1(d: &mut Vec<Vec<u8>>)
    ensures
        final(d).deep_view() == old(d).deep_view() + spec_json_dict_v1_part1(),
{
    let ghost d0 = d.deep_view();
    push_token(d, &[0x22u8, 0x69u8, 0x74u8, 0x65u8, 0x6du8, 0x73u8, 0x22u8, 0x3au8]); // "items":
    push_token(d, &[0x22u8, 0x65u8, 0x72u8, 0x72u8, 0x6fu8, 0x72u8, 0x22u8, 0x3au8]); // "error":
    push_token(d, &[0x22u8, 0x6du8, 0x65u8, 0x73u8, 0x73u8, 0x61u8, 0x67u8, 0x65u8, 0x22u8, 0x3au8]); // "message":
    push_token(d, &[0x22u8, 0x63u8, 0x6fu8, 0x64u8, 0x65u8, 0x22u8, 0x3au8]); // "code":
    push_token(d, &[0x22u8, 0x73u8, 0x75u8, 0x63u8, 0x63u8, 0x65u8, 0x73u8, 0x73u8, 0x22u8, 0x3au8]); // "success":
    push_token(d, &[0x22u8, 0x63u8, 0x72u8, 0x65u8, 0x61u8, 0x74u8, 0x65u8, 0x64u8, 0x5fu8, 0x61u8, 0x74u8, 0x22u8, 0x3au8]); // "created_at":
    push_token(d, &[0x22u8, 0x75u8, 0x70u8, 0x64u8, 0x61u8, 0x74u8, 0x65u8, 0x64u8, 0x5fu8, 0x61u8, 0x74u8, 0x22u8, 0x3au8]); // "updated_at":
    push_token(d, &[0x22u8, 0x74u8, 0x69u8, 0x6du8, 0x65u8, 0x73u8, 0x74u8, 0x61u8, 0x6du8, 0x70u8, 0x22u8, 0x3au8]); // "timestamp":
    assert(d.deep_view() =~= d0 + spec_json_dict_v1_part1());
}

/// Append tokens of part 2 of the json dictionary.
fn json_dict_v1_part2(d: &mut Vec<Vec<u8>>)
    ensures
        final(d).deep_view() == old(d).deep_view() + spec_json_dict_v1_part2(),
{
    let ghost d0 = d.deep_view();
    push_token(d, &[0x22u8, 0x76u8, 0x65u8, 0x72u8, 0x73u8, 0x69u8, 0x6fu8, 0x6eu8, 0x22u8, 0x3au8]); // "version":
    push_token(d, &[0x22u8, 0x65u8, 0x6eu8, 0x61u8, 0x62u8, 0x6cu8, 0x65u8, 0x64u8, 0x22u8, 0x3au8]); // "enabled":
    push_token(d, &[0x22u8, 0x63u8, 0x6fu8, 0x75u8, 0x6eu8, 0x74u8, 0x22u8, 0x3au8]); // "count":
    push_token(d, &[0x22u8, 0x74u8, 0x6fu8, 0x74u8, 0x61u8, 0x6cu8, 0x22u8, 0x3au8]); // "total":
    push_token(d, &[0x22u8, 0x72u8, 0x65u8, 0x73u8, 0x75u8, 0x6cu8, 0x74u8, 0x73u8, 0x22u8, 0x3au8]); // "results":
    push_token(d, &[0x22u8, 0x70u8, 0x72u8, 0x6fu8, 0x70u8, 0x65u8, 0x72u8, 0x74u8, 0x69u8, 0x65u8, 0x73u8, 0x22u8, 0x3au8]); // "properties":
    push_token(d, &[0x22u8, 0x61u8, 0x74u8, 0x74u8, 0x72u8, 0x69u8, 0x62u8, 0x75u8, 0x74u8, 0x65u8, 0x73u8, 0x22u8, 0x3au8]); // "attributes":
    push_token(d, &[0x22u8, 0x63u8, 0x6fu8, 0x6eu8, 0x66u8, 0x69u8, 0x67u8, 0x22u8, 0x3au8]); // "config":
    assert(d.deep_view() =~= d0 + spec_json_dict_v1_part2());
}

/// Append tokens of part 3 of the json dictionary.
fn json_dict_v1_part3(d: &mut Vec<Vec<u8>>)
    ensures
        final(d).deep_view() == old(d).deep_view() + spec_json_dict_v1_part3(),
{
    let ghost d0 = d.deep_view();
    push_token(d, &[0x22u8, 0x6fu8, 0x70u8, 0x74u8, 0x69u8, 0x6fu8, 0x6eu8, 0x73u8, 0x22u8, 0x3au8]); // "options":
    push_token(d, &[0x22u8, 0x65u8, 0x6du8, 0x61u8, 0x69u8, 0x6cu8, 0x22u8, 0x3au8]); // "email":
    push_token(d, &[0x22u8, 0x75u8, 0x73u8, 0x65u8, 0x72u8, 0x22u8, 0x3au8]); // "user":
    push_token(d, &[0x22u8, 0x72u8, 0x6fu8, 0x6cu8, 0x65u8, 0x22u8, 0x3au8]); // "role":
    push_token(d, &[0x22u8, 0x74u8, 0x6fu8, 0x6bu8, 0x65u8, 0x6eu8, 0x22u8, 0x3au8]); // "token":
    push_token(d, &[0x22u8, 0x61u8, 0x63u8, 0x74u8, 0x69u8, 0x76u8, 0x65u8, 0x22u8, 0x3au8]); // "active":
    push_token(d, &[0x22u8, 0x74u8, 0x72u8, 0x75u8, 0x65u8, 0x22u8]); // "true"
    push_token(d, &[0x22u8, 0x66u8, 0x61u8, 0x6cu8, 0x73u8, 0x65u8, 0x22u8]); // "false"
    assert(d.deep_view() =~= d0 + spec_json_dict_v1_part3());
}

/// Append tokens of part 4 of the json dictionary.
fn json_dict_v1_part4(d: &mut Vec<Vec<u8>>)
    ensures
        final(d).deep_view() == old(d).deep_view() + spec_json_dict_v1_part4(),
{
    let ghost d0 = d.deep_view();
    push_token(d, &[0x22u8, 0x6eu8, 0x75u8, 0x6cu8, 0x6cu8, 0x22u8]); // "null"
    push_token(d, &[0x3au8, 0x20u8, 0x74u8, 0x72u8, 0x75u8, 0x65u8]); // : true
    push_token(d, &[0x3au8, 0x20u8, 0x66u8, 0x61u8, 0x6cu8, 0x73u8, 0x65u8]); // : false
    push_token(d, &[0x3au8, 0x20u8, 0x6eu8, 0x75u8, 0x6cu8, 0x6cu8]); // : null
    push_token(d, &[0x3au8, 0x20u8, 0x22u8, 0x22u8]); // : ""
    push_token(d, &[0x3au8, 0x20u8, 0x5bu8, 0x5du8]); // : []
    push_token(d, &[0x3au8, 0x20u8, 0x7bu8, 0x7du8]); // : {}
    push_token(d, &[0x3au8, 0x20u8, 0x22u8]); // : "
    assert(d.deep_view() =~= d0 + spec_json_dict_v1_part4());
}

/// Append tokens of part 5 of the json dictionary.
fn json_dict_v1_part5(d: &mut Vec<Vec<u8>>)
    ensures
        final(d).deep_view() == old(d).deep_view() + spec_json_dict_v1_part5(),
{
    let ghost d0 = d.deep_view();
    push_token(d, &[0x22u8, 0x2cu8, 0x20u8, 0x22u8]); // ", "
    push_token(d, &[0x22u8, 0x2cu8, 0x0au8]); // ",\n
    push_token(d, &[0x22u8, 0x2cu8, 0x0du8, 0x0au8]); // ",\r\n
    push_token(d, &[0x7du8, 0x2cu8, 0x0au8]); // },\n
    push_token(d, &[0x7du8, 0x2cu8, 0x0du8, 0x0au8]); // },\r\n
    push_token(d, &[0x5du8, 0x2cu8, 0x0au8]); // ],\n
    push_token(d, &[0x5du8, 0x2cu8, 0x0du8, 0x0au8]); // ],\r\n
    push_token(d, &[0x7bu8, 0x0au8, 0x20u8, 0x20u8, 0x22u8]); // {\n  "
    assert(d.deep_view() =~= d0 + spec_json_dict_v1_part5());
}

/// Append tokens of part 6 of the json dictionary.
fn json_dict_v1_part6(d: &mut Vec<Vec<u8>>)
    ensures
        final(d).deep_view() == old(d).deep_view() + spec_json_dict_v1_part6(),
{
    let ghost d0 = d.deep_view();
    push_token(d, &[0x7bu8, 0x0du8, 0x0au8, 0x20u8, 0x20u8, 0x22u8]); // {\r\n  "
    push_token(d, &[0x20u8, 0x20u8, 0x20u8, 0x20u8, 0x22u8]); //     "
    push_token(d, &[0x20u8, 0x20u8, 0x22u8]); //   "
    push_token(d, &[0x22u8, 0x7du8]); // "}
    push_token(d, &[0x22u8, 0x5du8]); // "]
    push_token(d, &[0x68u8, 0x74u8, 0x74u8, 0x70u8, 0x3au8, 0x2fu8, 0x2fu8]); // http://
    push_token(d, &[0x68u8, 0x74u8, 0x74u8, 0x70u8, 0x73u8, 0x3au8, 0x2fu8, 0x2fu8]); // https://
    push_token(d, &[0x61u8, 0x70u8, 0x70u8, 0x6cu8, 0x69u8, 0x63u8, 0x61u8, 0x74u8, 0x69u8, 0x6fu8, 0x6eu8, 0x2fu8, 0x6au8, 0x73u8, 0x6fu8, 0x6eu8]); // application/json
    assert(d.deep_view() =~= d0 + spec_json_dict_v1_part6());
}

/// Build the static json dictionary (version 1).
fn json_dict_v1() -> (r: Vec<Vec<u8>>)
    ensures
        r.deep_view() == spec_json_dict_v1(),
{
    let mut d: Vec<Vec<u8>> = Vec::new();
    assert(d.deep_view() =~= Seq::<Seq<u8>>::empty());
    json_dict_v1_part0(&mut d);
    json_dict_v1_part1(&mut d);
    json_dict_v1_part2(&mut d);
    json_dict_v1_part3(&mut d);
    json_dict_v1_part4(&mut d);
    json_dict_v1_part5(&mut d);
    json_dict_v1_part6(&mut d);
    assert(d.deep_view() =~= spec_json_dict_v1()) by {
        reveal(spec_json_dict_v1);
    }
    d
}

/// Tokens 0..8 of the web (HTML/CSS/JS) dictionary.
pub open spec fn spec_web_dict_v1_part0() -> Seq<Seq<u8>> {
    seq![
        seq![0x3cu8, 0x21u8, 0x44u8, 0x4fu8, 0x43u8, 0x54u8, 0x59u8, 0x50u8, 0x45u8, 0x20u8, 0x68u8, 0x74u8, 0x6du8, 0x6cu8, 0x3eu8],
        seq![0x3cu8, 0x68u8, 0x74u8, 0x6du8, 0x6cu8],
        seq![0x3cu8, 0x2fu8, 0x68u8, 0x74u8, 0x6du8, 0x6cu8, 0x3eu8],
        seq![0x3cu8, 0x68u8, 0x65u8, 0x61u8, 0x64u8, 0x3eu8],
        seq![0x3cu8, 0x2fu8, 0x68u8, 0x65u8, 0x61u8, 0x64u8, 0x3eu8],
        seq![0x3cu8, 0x62u8, 0x6fu8, 0x64u8, 0x79u8, 0x3eu8],
        seq![0x3cu8, 0x2fu8, 0x62u8, 0x6fu8, 0x64u8, 0x79u8, 0x3eu8],
        seq![0x3cu8, 0x6du8, 0x65u8, 0x74u8, 0x61u8, 0x20u8],
    ]
}

/// Tokens 8..16 of the web (HTML/CSS/JS) dictionary.
pub open spec fn spec_web_dict_v1_part1() -> Seq<Seq<u8>> {
    seq![
        seq![0x3cu8, 0x74u8, 0x69u8, 0x74u8, 0x6cu8, 0x65u8, 0x3eu8],
        seq![0x3cu8, 0x2fu8, 0x74u8, 0x69u8, 0x74u8, 0x6cu8, 0x65u8, 0x3eu8],
        seq![0x3cu8, 0x6cu8, 0x69u8, 0x6eu8, 0x6bu8, 0x20u8, 0x72u8, 0x65u8, 0x6cu8, 0x3du8, 0x22u8, 0x73u8, 0x74u8, 0x79u8, 0x6cu8, 0x65u8, 0x73u8, 0x68u8, 0x65u8, 0x65u8, 0x74u8, 0x22u8, 0x20u8],
        seq![0x3cu8, 0x73u8, 0x63u8, 0x72u8, 0x69u8, 0x70u8, 0x74u8],
        seq![0x3cu8, 0x2fu8, 0x73u8, 0x63u8, 0x72u8, 0x69u8, 0x70u8, 0x74u8, 0x3eu8],
        seq![0x3cu8, 0x64u8, 0x69u8, 0x76u8, 0x20u8, 0x63u8, 0x6cu8, 0x61u8, 0x73u8, 0x73u8, 0x3du8, 0x22u8],
        seq![0x3cu8, 0x64u8, 0x69u8, 0x76u8, 0x20u8, 0x69u8, 0x64u8, 0x3du8, 0x22u8],
        seq![0x3cu8, 0x64u8, 0x69u8, 0x76u8, 0x3eu8],
    ]
}

/// Tokens 16..24 of the web (HTML/CSS/JS) dictionary.
pub open spec fn spec_web_dict_v1_part2() -> Seq<Seq<u8>> {
    seq![
        seq![0x3cu8, 0x2fu8, 0x64u8, 0x69u8, 0x76u8, 0x3eu8],
        seq![0x3cu8, 0x73u8, 0x70u8, 0x61u8, 0x6eu8, 0x20u8, 0x63u8, 0x6cu8, 0x61u8, 0x73u8, 0x73u8, 0x3du8, 0x22u8],
        seq![0x3cu8, 0x73u8, 0x70u8, 0x61u8, 0x6eu8, 0x3eu8],
        seq![0x3cu8, 0x2fu8, 0x73u8, 0x70u8, 0x61u8, 0x6eu8, 0x3eu8],
        seq![0x3cu8, 0x61u8, 0x20u8, 0x68u8, 0x72u8, 0x65u8, 0x66u8, 0x3du8, 0x22u8],
        seq![0x3cu8, 0x2fu8, 0x61u8, 0x3eu8],
        seq![0x3cu8, 0x70u8, 0x3eu8],
        seq![0x3cu8, 0x2fu8, 0x70u8, 0x3eu8],
    ]
}

/// Tokens 24..32 of the web (HTML/CSS/JS) dictionary.
pub open spec fn spec_web_dict_v1_part3() -> Seq<Seq<u8>> {
    seq![
        seq![0x3cu8, 0x75u8, 0x6cu8, 0x3eu8],
        seq![0x3cu8, 0x2fu8, 0x75u8, 0x6cu8, 0x3eu8],
        seq![0x3cu8, 0x6cu8, 0x69u8, 0x3eu8],
        seq![0x3cu8, 0x2fu8, 0x6cu8, 0x69u8, 0x3eu8],
        seq![0x3cu8, 0x62u8, 0x75u8, 0x74u8, 0x74u8, 0x6fu8, 0x6eu8, 0x20u8],
        seq![0x3cu8, 0x2fu8, 0x62u8, 0x75u8, 0x74u8, 0x74u8, 0x6fu8, 0x6eu8, 0x3eu8],
        seq![0x3cu8, 0x69u8, 0x6eu8, 0x70u8, 0x75u8, 0x74u8, 0x20u8, 0x74u8, 0x79u8, 0x70u8, 0x65u8, 0x3du8, 0x22u8],
        seq![0x63u8, 0x6cu8, 0x61u8, 0x73u8, 0x73u8, 0x3du8, 0x22u8],
    ]
}

/// Tokens 32..40 of the web (HTML/CSS/JS) dictionary.
pub open spec fn spec_web_dict_v1_part4() -> Seq<Seq<u8>> {
    seq![
        seq![0x73u8, 0x74u8, 0x79u8, 0x6cu8, 0x65u8, 0x3du8, 0x22u8],
        seq![0x69u8, 0x64u8, 0x3du8, 0x22u8],
        seq![0x68u8, 0x72u8, 0x65u8, 0x66u8, 0x3du8, 0x22u8],
        seq![0x73u8, 0x72u8, 0x63u8, 0x3du8, 0x22u8],
        seq![0x61u8, 0x6cu8, 0x74u8, 0x3du8, 0x22u8],
        seq![0x77u8, 0x69u8, 0x64u8, 0x74u8, 0x68u8, 0x3du8, 0x22u8],
        seq![0x68u8, 0x65u8, 0x69u8, 0x67u8, 0x68u8, 0x74u8, 0x3du8, 0x22u8],
        seq![0x64u8, 0x69u8, 0x73u8, 0x70u8, 0x6cu8, 0x61u8, 0x79u8, 0x3au8, 0x20u8, 0x66u8, 0x6cu8, 0x65u8, 0x78u8, 0x3bu8],
    ]
}

/// Tokens 40..48 of the web (HTML/CSS/JS) dictionary.
pub open spec fn spec_web_dict_v1_part5() -> Seq<Seq<u8>> {
    seq![
        seq![0x64u8, 0x69u8, 0x73u8, 0x70u8, 0x6cu8, 0x61u8, 0x79u8, 0x3au8, 0x20u8, 0x6eu8, 0x6fu8, 0x6eu8, 0x65u8, 0x3bu8],
        seq![0x64u8, 0x69u8, 0x73u8, 0x70u8, 0x6cu8, 0x61u8, 0x79u8, 0x3au8, 0x20u8, 0x62u8, 0x6cu8, 0x6fu8, 0x63u8, 0x6bu8, 0x3bu8],
        seq![0x70u8, 0x6fu8, 0x73u8, 0x69u8, 0x74u8, 0x69u8, 0x6fu8, 0x6eu8, 0x3au8, 0x20u8, 0x61u8, 0x62u8, 0x73u8, 0x6fu8, 0x6cu8, 0x75u8, 0x74u8, 0x65u8, 0x3bu8],
        seq![0x70u8, 0x6fu8, 0x73u8, 0x69u8, 0x74u8, 0x69u8, 0x6fu8, 0x6eu8, 0x3au8, 0x20u8, 0x72u8, 0x65u8, 0x6cu8, 0x61u8, 0x74u8, 0x69u8, 0x76u8, 0x65u8, 0x3bu8],
        seq![0x6du8, 0x61u8, 0x72u8, 0x67u8, 0x69u8, 0x6eu8, 0x3au8, 0x20u8, 0x30u8, 0x3bu8],
        seq![0x70u8, 0x61u8, 0x64u8, 0x64u8, 0x69u8, 0x6eu8, 0x67u8, 0x3au8, 0x20u8, 0x30u8, 0x3bu8],
        seq![0x62u8, 0x6fu8, 0x78u8, 0x2du8, 0x73u8, 0x69u8, 0x7au8, 0x69u8, 0x6eu8, 0x67u8, 0x3au8, 0x20u8, 0x62u8, 0x6fu8, 0x72u8, 0x64u8, 0x65u8, 0x72u8, 0x2du8, 0x62u8, 0x6fu8, 0x78u8, 0x3bu8],
        seq![0x74u8, 0x65u8, 0x78u8, 0x74u8, 0x2du8, 0x61u8, 0x6cu8, 0x69u8, 0x67u8, 0x6eu8, 0x3au8, 0x20u8, 0x63u8, 0x65u8, 0x6eu8, 0x74u8, 0x65u8, 0x72u8, 0x3bu8],
    ]
}

/// Tokens 48..56 of the web (HTML/CSS/JS) dictionary.
pub open spec fn spec_web_dict_v1_part6() -> Seq<Seq<u8>> {
    seq![
        seq![0x63u8, 0x6fu8, 0x6cu8, 0x6fu8, 0x72u8, 0x3au8, 0x20u8, 0x23u8],
        seq![0x62u8, 0x61u8, 0x63u8, 0x6bu8, 0x67u8, 0x72u8, 0x6fu8, 0x75u8, 0x6eu8, 0x64u8, 0x2du8, 0x63u8, 0x6fu8, 0x6cu8, 0x6fu8, 0x72u8, 0x3au8, 0x20u8, 0x23u8],
        seq![0x66u8, 0x6fu8, 0x6eu8, 0x74u8, 0x2du8, 0x66u8, 0x61u8, 0x6du8, 0x69u8, 0x6cu8, 0x79u8, 0x3au8, 0x20u8],
        seq![0x66u8, 0x6fu8, 0x6eu8, 0x74u8, 0x2du8, 0x73u8, 0x69u8, 0x7au8, 0x65u8, 0x3au8, 0x20u8],
        seq![0x61u8, 0x64u8, 0x64u8, 0x45u8, 0x76u8, 0x65u8, 0x6eu8, 0x74u8, 0x4cu8, 0x69u8, 0x73u8, 0x74u8, 0x65u8, 0x6eu8, 0x65u8, 0x72u8, 0x28u8],
        seq![0x71u8, 0x75u8, 0x65u8, 0x72u8, 0x79u8, 0x53u8, 0x65u8, 0x6cu8, 0x65u8, 0x63u8, 0x74u8, 0x6fu8, 0x72u8, 0x28u8],
        seq![0x71u8, 0x75u8, 0x65u8, 0x72u8, 0x79u8, 0x53u8, 0x65u8, 0x6cu8, 0x65u8, 0x63u8, 0x74u8, 0x6fu8, 0x72u8, 0x41u8, 0x6cu8, 0x6cu8, 0x28u8],
        seq![0x67u8, 0x65u8, 0x74u8, 0x45u8, 0x6cu8, 0x65u8, 0x6du8, 0x65u8, 0x6eu8, 0x74u8, 0x42u8, 0x79u8, 0x49u8, 0x64u8, 0x28u8],
    ]
}

/// Tokens 56..64 of the web (HTML/CSS/JS) dictionary.
pub open spec fn spec_web_dict_v1_part7() -> Seq<Seq<u8>> {
    seq![
        seq![0x66u8, 0x75u8, 0x6eu8, 0x63u8, 0x74u8, 0x69u8, 0x6fu8, 0x6eu8, 0x28u8],
        seq![0x72u8, 0x65u8, 0x74u8, 0x75u8, 0x72u8, 0x6eu8, 0x20u8],
        seq![0x63u8, 0x6fu8, 0x6eu8, 0x73u8, 0x74u8, 0x20u8],
        seq![0x6cu8, 0x65u8, 0x74u8, 0x20u8],
        seq![0x76u8, 0x61u8, 0x72u8, 0x20u8],
        seq![0x63u8, 0x6fu8, 0x6eu8, 0x73u8, 0x6fu8, 0x6cu8, 0x65u8, 0x2eu8, 0x6cu8, 0x6fu8, 0x67u8, 0x28u8],
        seq![0x64u8, 0x6fu8, 0x63u8, 0x75u8, 0x6du8, 0x65u8, 0x6eu8, 0x74u8, 0x2eu8],
        seq![0x77u8, 0x69u8, 0x6eu8, 0x64u8, 0x6fu8, 0x77u8, 0x2eu8],
    ]
}

/// The static web (HTML/CSS/JS) dictionary (version 1).
#[verifier::opaque]
pub open spec fn spec_web_dict_v1() -> Seq<Seq<u8>> {
    spec_web_dict_v1_part0() + spec_web_dict_v1_part1() + spec_web_dict_v1_part2() + spec_web_dict_v1_part3() + spec_web_dict_v1_part4() + spec_web_dict_v1_part5() + spec_web_dict_v1_part6() + spec_web_dict_v1_part7()
}

/// Append tokens of part 0 of the web dictionary.
fn web_dict_v1_part0(d: &mut Vec<Vec<u8>>)
    ensures
        final(d).deep_view() == old(d).deep_view() + spec_web_dict_v1_part0(),
{
    let ghost d0 = d.deep_view();
    push_token(d, &[0x3cu8, 0x21u8, 0x44u8, 0x4fu8, 0x43u8, 0x54u8, 0x59u8, 0x50u8, 0x45u8, 0x20u8, 0x68u8, 0x74u8, 0x6du8, 0x6cu8, 0x3eu8]); // <!DOCTYPE html>
    push_token(d, &[0x3cu8, 0x68u8, 0x74u8, 0x6du8, 0x6cu8]); // <html
    push_token(d, &[0x3cu8, 0x2fu8, 0x68u8, 0x74u8, 0x6du8, 0x6cu8, 0x3eu8]); // </html>
    push_token(d, &[0x3cu8, 0x68u8, 0x65u8, 0x61u8, 0x64u8, 0x3eu8]); // <head>
    push_token(d, &[0x3cu8, 0x2fu8, 0x68u8, 0x65u8, 0x61u8, 0x64u8, 0x3eu8]); // </head>
    push_token(d, &[0x3cu8, 0x62u8, 0x6fu8, 0x64u8, 0x79u8, 0x3eu8]); // <body>
    push_token(d, &[0x3cu8, 0x2fu8, 0x62u8, 0x6fu8, 0x64u8, 0x79u8, 0x3eu8]); // </body>
    push_token(d, &[0x3cu8, 0x6du8, 0x65u8, 0x74u8, 0x61u8, 0x20u8]); // <meta 
    assert(d.deep_view() =~= d0 + spec_web_dict_v1_part0());
}

/// Append tokens of part 1 of the web dictionary.
fn web_dict_v1_part1(d: &mut Vec<Vec<u8>>)
    ensures
        final(d).deep_view() == old(d).deep_view() + spec_web_dict_v1_part1(),
{
    let ghost d0 = d.deep_view();
    push_token(d, &[0x3cu8, 0x74u8, 0x69u8, 0x74u8, 0x6cu8, 0x65u8, 0x3eu8]); // <title>
    push_token(d, &[0x3cu8, 0x2fu8, 0x74u8, 0x69u8, 0x74u8, 0x6cu8, 0x65u8, 0x3eu8]); // </title>
    push_token(d, &[0x3cu8, 0x6cu8, 0x69u8, 0x6eu8, 0x6bu8, 0x20u8, 0x72u8, 0x65u8, 0x6cu8, 0x3du8, 0x22u8, 0x73u8, 0x74u8, 0x79u8, 0x6cu8, 0x65u8, 0x73u8, 0x68u8, 0x65u8, 0x65u8, 0x74u8, 0x22u8, 0x20u8]); // <link rel="stylesheet" 
    push_token(d, &[0x3cu8, 0x73u8, 0x63u8, 0x72u8, 0x69u8, 0x70u8, 0x74u8]); // <script
    push_token(d, &[0x3cu8, 0x2fu8, 0x73u8, 0x63u8, 0x72u8, 0x69u8, 0x70u8, 0x74u8, 0x3eu8]); // </script>
    push_token(d, &[0x3cu8, 0x64u8, 0x69u8, 0x76u8, 0x20u8, 0x63u8, 0x6cu8, 0x61u8, 0x73u8, 0x73u8, 0x3du8, 0x22u8]); // <div class="
    push_token(d, &[0x3cu8, 0x64u8, 0x69u8, 0x76u8, 0x20u8, 0x69u8, 0x64u8, 0x3du8, 0x22u8]); // <div id="
    push_token(d, &[0x3cu8, 0x64u8, 0x69u8, 0x76u8, 0x3eu8]); // <div>
    assert(d.deep_view() =~= d0 + spec_web_dict_v1_part1());
}

/// Append tokens of part 2 of the web dictionary.
fn web_dict_v1_part2(d: &mut Vec<Vec<u8>>)
    ensures
        final(d).deep_view() == old(d).deep_view() + spec_web_dict_v1_part2(),
{
    let ghost d0 = d.deep_view();
    push_token(d, &[0x3cu8, 0x2fu8, 0x64u8, 0x69u8, 0x76u8, 0x3eu8]); // </div>
    push_token(d, &[0x3cu8, 0x73u8, 0x70u8, 0x61u8, 0x6eu8, 0x20u8, 0x63u8, 0x6cu8, 0x61u8, 0x73u8, 0x73u8, 0x3du8, 0x22u8]); // <span class="
    push_token(d, &[0x3cu8, 0x73u8, 0x70u8, 0x61u8, 0x6eu8, 0x3eu8]); // <span>
    push_token(d, &[0x3cu8, 0x2fu8, 0x73u8, 0x70u8, 0x61u8, 0x6eu8, 0x3eu8]); // </span>
    push_token(d, &[0x3cu8, 0x61u8, 0x20u8, 0x68u8, 0x72u8, 0x65u8, 0x66u8, 0x3du8, 0x22u8]); // <a href="
    push_token(d, &[0x3cu8, 0x2fu8, 0x61u8, 0x3eu8]); // </a>
    push_token(d, &[0x3cu8, 0x70u8, 0x3eu8]); // <p>
    push_token(d, &[0x3cu8, 0x2fu8, 0x70u8, 0x3eu8]); // </p>
    assert(d.deep_view() =~= d0 + spec_web_dict_v1_part2());
}

/// Append tokens of part 3 of the web dictionary.
fn web_dict_v1_part3(d: &mut Vec<Vec<u8>>)
    ensures
        final(d).deep_view() == old(d).deep_view() + spec_web_dict_v1_part3(),
{
    let ghost d0 = d.deep_view();
    push_token(d, &[0x3cu8, 0x75u8, 0x6cu8, 0x3eu8]); // <ul>
    push_token(d, &[0x3cu8, 0x2fu8, 0x75u8, 0x6cu8, 0x3eu8]); // </ul>
    push_token(d, &[0x3cu8, 0x6cu8, 0x69u8, 0x3eu8]); // <li>
    push_token(d, &[0x3cu8, 0x2fu8, 0x6cu8, 0x69u8, 0x3eu8]); // </li>
    push_token(d, &[0x3cu8, 0x62u8, 0x75u8, 0x74u8, 0x74u8, 0x6fu8, 0x6eu8, 0x20u8]); // <button 
    push_token(d, &[0x3cu8, 0x2fu8, 0x62u8, 0x75u8, 0x74u8, 0x74u8, 0x6fu8, 0x6eu8, 0x3eu8]); // </button>
    push_token(d, &[0x3cu8, 0x69u8, 0x6eu8, 0x70u8, 0x75u8, 0x74u8, 0x20u8, 0x74u8, 0x79u8, 0x70u8, 0x65u8, 0x3du8, 0x22u8]); // <input type="
    push_token(d, &[0x63u8, 0x6cu8, 0x61u8, 0x73u8, 0x73u8, 0x3du8, 0x22u8]); // class="
    assert(d.deep_view() =~= d0 + spec_web_dict_v1_part3());
}

/// Append tokens of part 4 of the web dictionary.
fn web_dict_v1_part4(d: &mut Vec<Vec<u8>>)
    ensures
        final(d).deep_view() == old(d).deep_view() + spec_web_dict_v1_part4(),
{
    let ghost d0 = d.deep_view();
    push_token(d, &[0x73u8, 0x74u8, 0x79u8, 0x6cu8, 0x65u8, 0x3du8, 0x22u8]); // style="
    push_token(d, &[0x69u8, 0x64u8, 0x3du8, 0x22u8]); // id="
    push_token(d, &[0x68u8, 0x72u8, 0x65u8, 0x66u8, 0x3du8, 0x22u8]); // href="
    push_token(d, &[0x73u8, 0x72u8, 0x63u8, 0x3du8, 0x22u8]); // src="
    push_token(d, &[0x61u8, 0x6cu8, 0x74u8, 0x3du8, 0x22u8]); // alt="
    push_token(d, &[0x77u8, 0x69u8, 0x64u8, 0x74u8, 0x68u8, 0x3du8, 0x22u8]); // width="
    push_token(d, &[0x68u8, 0x65u8, 0x69u8, 0x67u8, 0x68u8, 0x74u8, 0x3du8, 0x22u8]); // height="
    push_token(d, &[0x64u8, 0x69u8, 0x73u8, 0x70u8, 0x6cu8, 0x61u8, 0x79u8, 0x3au8, 0x20u8, 0x66u8, 0x6cu8, 0x65u8, 0x78u8, 0x3bu8]); // display: flex;
    assert(d.deep_view() =~= d0 + spec_web_dict_v1_part4());
}

/// Append tokens of part 5 of the web dictionary.
fn web_dict_v1_part5(d: &mut Vec<Vec<u8>>)
    ensures
        final(d).deep_view() == old(d).deep_view() + spec_web_dict_v1_part5(),
{
    let ghost d0 = d.deep_view();
    push_token(d, &[0x64u8, 0x69u8, 0x73u8, 0x70u8, 0x6cu8, 0x61u8, 0x79u8, 0x3au8, 0x20u8, 0x6eu8, 0x6fu8, 0x6eu8, 0x65u8, 0x3bu8]); // display: none;
    push_token(d, &[0x64u8, 0x69u8, 0x73u8, 0x70u8, 0x6cu8, 0x61u8, 0x79u8, 0x3au8, 0x20u8, 0x62u8, 0x6cu8, 0x6fu8, 0x63u8, 0x6bu8, 0x3bu8]); // display: block;
    push_token(d, &[0x70u8, 0x6fu8, 0x73u8, 0x69u8, 0x74u8, 0x69u8, 0x6fu8, 0x6eu8, 0x3au8, 0x20u8, 0x61u8, 0x62u8, 0x73u8, 0x6fu8, 0x6cu8, 0x75u8, 0x74u8, 0x65u8, 0x3bu8]); // position: absolute;
    push_token(d, &[0x70u8, 0x6fu8, 0x73u8, 0x69u8, 0x74u8, 0x69u8, 0x6fu8, 0x6eu8, 0x3au8, 0x20u8, 0x72u8, 0x65u8, 0x6cu8, 0x61u8, 0x74u8, 0x69u8, 0x76u8, 0x65u8, 0x3bu8]); // position: relative;
    push_token(d, &[0x6du8, 0x61u8, 0x72u8, 0x67u8, 0x69u8, 0x6eu8, 0x3au8, 0x20u8, 0x30u8, 0x3bu8]); // margin: 0;
    push_token(d, &[0x70u8, 0x61u8, 0x64u8, 0x64u8, 0x69u8, 0x6eu8, 0x67u8, 0x3au8, 0x20u8, 0x30u8, 0x3bu8]); // padding: 0;
    push_token(d, &[0x62u8, 0x6fu8, 0x78u8, 0x2du8, 0x73u8, 0x69u8, 0x7au8, 0x69u8, 0x6eu8, 0x67u8, 0x3au8, 0x20u8, 0x62u8, 0x6fu8, 0x72u8, 0x64u8, 0x65u8, 0x72u8, 0x2du8, 0x62u8, 0x6fu8, 0x78u8, 0x3bu8]); // box-sizing: border-box;
    push_token(d, &[0x74u8, 0x65u8, 0x78u8, 0x74u8, 0x2du8, 0x61u8, 0x6cu8, 0x69u8, 0x67u8, 0x6eu8, 0x3au8, 0x20u8, 0x63u8, 0x65u8, 0x6eu8, 0x74u8, 0x65u8, 0x72u8, 0x3bu8]); // text-align: center;
    assert(d.deep_view() =~= d0 + spec_web_dict_v1_part5());
}

/// Append tokens of part 6 of the web dictionary.
fn web_dict_v1_part6(d: &mut Vec<Vec<u8>>)
    ensures
        final(d).deep_view() == old(d).deep_view() + spec_web_dict_v1_part6(),
{
    let ghost d0 = d.deep_view();
    push_token(d, &[0x63u8, 0x6fu8, 0x6cu8, 0x6fu8, 0x72u8, 0x3au8, 0x20u8, 0x23u8]); // color: #
    push_token(d, &[0x62u8, 0x61u8, 0x63u8, 0x6bu8, 0x67u8, 0x72u8, 0x6fu8, 0x75u8, 0x6eu8, 0x64u8, 0x2du8, 0x63u8, 0x6fu8, 0x6cu8, 0x6fu8, 0x72u8, 0x3au8, 0x20u8, 0x23u8]); // background-color: #
    push_token(d, &[0x66u8, 0x6fu8, 0x6eu8, 0x74u8, 0x2du8, 0x66u8, 0x61u8, 0x6du8, 0x69u8, 0x6cu8, 0x79u8, 0x3au8, 0x20u8]); // font-family: 
    push_token(d, &[0x66u8, 0x6fu8, 0x6eu8, 0x74u8, 0x2du8, 0x73u8, 0x69u8, 0x7au8, 0x65u8, 0x3au8, 0x20u8]); // font-size: 
    push_token(d, &[0x61u8, 0x64u8, 0x64u8, 0x45u8, 0x76u8, 0x65u8, 0x6eu8, 0x74u8, 0x4cu8, 0x69u8, 0x73u8, 0x74u8, 0x65u8, 0x6eu8, 0x65u8, 0x72u8, 0x28u8]); // addEventListener(
    push_token(d, &[0x71u8, 0x75u8, 0x65u8, 0x72u8, 0x79u8, 0x53u8, 0x65u8, 0x6cu8, 0x65u8, 0x63u8, 0x74u8, 0x6fu8, 0x72u8, 0x28u8]); // querySelector(
    push_token(d, &[0x71u8, 0x75u8, 0x65u8, 0x72u8, 0x79u8, 0x53u8, 0x65u8, 0x6cu8, 0x65u8, 0x63u8, 0x74u8, 0x6fu8, 0x72u8, 0x41u8, 0x6cu8, 0x6cu8, 0x28u8]); // querySelectorAll(
    push_token(d, &[0x67u8, 0x65u8, 0x74u8, 0x45u8, 0x6cu8, 0x65u8, 0x6du8, 0x65u8, 0x6eu8, 0x74u8, 0x42u8, 0x79u8, 0x49u8, 0x64u8, 0x28u8]); // getElementById(
    assert(d.deep_view() =~= d0 + spec_web_dict_v1_part6());
}

/// Append tokens of part 7 of the web dictionary.
fn web_dict_v1_part7(d: &mut Vec<Vec<u8>>)
    ensures
        final(d).deep_view() == old(d).deep_view() + spec_web_dict_v1_part7(),
{
    let ghost d0 = d.deep_view();
    push_token(d, &[0x66u8, 0x75u8, 0x6eu8, 0x63u8, 0x74u8, 0x69u8, 0x6fu8, 0x6eu8, 0x28u8]); // function(
    push_token(d, &[0x72u8, 0x65u8, 0x74u8, 0x75u8, 0x72u8, 0x6eu8, 0x20u8]); // return 
    push_token(d, &[0x63u8, 0x6fu8, 0x6eu8, 0x73u8, 0x74u8, 0x20u8]); // const 
    push_token(d, &[0x6cu8, 0x65u8, 0x74u8, 0x20u8]); // let 
    push_token(d, &[0x76u8, 0x61u8, 0x72u8, 0x20u8]); // var 
    push_token(d, &[0x63u8, 0x6fu8, 0x6eu8, 0x73u8, 0x6fu8, 0x6cu8, 0x65u8, 0x2eu8, 0x6cu8, 0x6fu8, 0x67u8, 0x28u8]); // console.log(
    push_token(d, &[0x64u8, 0x6fu8, 0x63u8, 0x75u8, 0x6du8, 0x65u8, 0x6eu8, 0x74u8, 0x2eu8]); // document.
    push_token(d, &[0x77u8, 0x69u8, 0x6eu8, 0x64u8, 0x6fu8, 0x77u8, 0x2eu8]); // window.
    assert(d.deep_view() =~= d0 + spec_web_dict_v1_part7());
}

/// Build the static web (HTML/CSS/JS) dictionary (version 1).
fn web_dict_v1() -> (r: Vec<Vec<u8>>)
    ensures
        r.deep_view() == spec_web_dict_v1(),
{
    let mut d: Vec<Vec<u8>> = Vec::new();
    assert(d.deep_view() =~= Seq::<Seq<u8>>::empty());
    web_dict_v1_part0(&mut d);
    web_dict_v1_part1(&mut d);
    web_dict_v1_part2(&mut d);
    web_dict_v1_part3(&mut d);
    web_dict_v1_part4(&mut d);
    web_dict_v1_part5(&mut d);
    web_dict_v1_part6(&mut d);
    web_dict_v1_part7(&mut d);
    assert(d.deep_view() =~= spec_web_dict_v1()) by {
        reveal(spec_web_dict_v1);
    }
    d
}

/// Look up a registered static dictionary by id and version.
pub fn lookup_static_dict(dict_id: u16, version: u8) -> (r: CodropResult<Vec<Vec<u8>>>)
    ensures
        dict_id == DICT_ID_JSON && version == DICT_VERSION_CURRENT ==> (r matches Ok(d) && d.deep_view()
            == spec_json_dict_v1()),
        dict_id == DICT_ID_WEB && version == DICT_VERSION_CURRENT ==> (r matches Ok(d) && d.deep_view()
            == spec_web_dict_v1()),
        !((dict_id == DICT_ID_JSON || dict_id == DICT_ID_WEB) && version == DICT_VERSION_CURRENT) ==> r
            == Err::<Vec<Vec<u8>>, CodropError>(CodropError::UnknownDictionary { dict_id, version }),
{
    if version == DICT_VERSION_CURRENT && dict_id == DICT_ID_JSON {
        Ok(json_dict_v1())
    } else if version == DICT_VERSION_CURRENT && dict_id == DICT_ID_WEB {
        Ok(web_dict_v1())
    } else {
        Err(CodropError::UnknownDictionary { dict_id, version })
    }
}

/// Number of occurrences of `b` in `s`.
pub open spec fn byte_count(s: Seq<u8>, b: u8) -> nat
    decreases s.len(),
{
    if s.len() == 0 {
        0
    } else {
        byte_count(s.drop_last(), b) + if s.last() == b { 1nat } else { 0nat }
    }
}

/// `r` is the smallest byte value among those that occur least often in `s`.
pub open spec fn is_least_frequent(s: Seq<u8>, r: u8) -> bool {
    &&& forall|b: u8| byte_count(s, r) <= #[trigger] byte_count(s, b)
    &&& forall|b: u8| b < r ==> byte_count(s, r) < #[trigger] byte_count(s, b)
}

proof fn lemma_byte_count_bound(s: Seq<u8>, b: u8)
    ensures
        byte_count(s, b) <= s.len(),
    decreases s.len(),
{
    if s.len() > 0 {
        lemma_byte_count_bound(s.drop_last(), b);
    }
}

/// The least frequent byte of `s` (the smallest one on ties).
pub open spec fn spec_least_frequent_byte(s: Seq<u8>) -> u8 {
    choose|r: u8| is_least_frequent(s, r)
}

/// At most one byte is the smallest least frequent one.
pub proof fn lemma_least_frequent_unique(s: Seq<u8>, a: u8, b: u8)
    requires
        is_least_frequent(s, a),
        is_least_frequent(s, b),
    ensures
        a == b,
{
    assert(byte_count(s, a) <= byte_count(s, b));
    assert(byte_count(s, b) <= byte_count(s, a));
}

/// The byte value (0..=255) that occurs least often in `src`; the smallest such value on ties.
pub fn find_least_frequent_byte(src: &[u8]) -> (r: u8)
    ensures
        is_least_frequent(src@, r),
        r == spec_least_frequent_byte(src@),
{
    let mut freqs: Vec<usize> = Vec::new();
    let mut k: usize = 0;
    while k < 256
        invariant
            k <= 256,
            freqs@.len() == k,
            forall|j: int| 0 <= j < k ==> #[trigger] freqs@[j] == 0,
        decreases 256 - k,
    {
        freqs.push(0);
        k = k + 1;
    }
    let mut i: usize = 0;
    while i < src.len()
        invariant
            i <= src@.len(),
            freqs@.len() == 256,
            forall|b: u8| #[trigger] freqs@[b as int] == byte_count(src@.take(i as int), b),
        decreases src@.len() - i,
    {
        let b = src[i];
        proof {
            assert(src@.take(i as int + 1).drop_last() =~= src@.take(i as int));
            lemma_byte_count_bound(src@.take(i as int), b);
        }
        let c = freqs[b as usize];
        freqs.set(b as usize, c + 1);
        i = i + 1;
        proof {
            assert forall|x: u8| #[trigger] freqs@[x as int] == byte_count(src@.take(i as int), x) by {
                assert(src@.take(i as int).last() == b);
            }
        }
    }
    assert(src@.take(i as int) =~= src@);
    let mut min_idx: usize = 0;
    let mut min_count = freqs[0];
    let mut j: usize = 1;
    while j < 256
        invariant
            1 <= j <= 256,
            freqs@.len() == 256,
            min_idx < j,
            min_count == freqs@[min_idx as int],
            forall|b: u8| #[trigger] freqs@[b as int] == byte_count(src@, b),
            forall|x: int| 0 <= x < j ==> min_count <= #[trigger] freqs@[x],
            forall|x: int| 0 <= x < min_idx ==> min_count < #[trigger] freqs@[x],
        decreases 256 - j,
    {
        let c = freqs[j];
        if c < min_count {
            min_count = c;
            min_idx = j;
        }
        j = j + 1;
    }
    proof {
        assert forall|b: u8| byte_count(src@, min_idx as u8) <= #[trigger] byte_count(src@, b) by {
            assert(freqs@[b as int] == byte_count(src@, b));
            assert(freqs@[min_idx as int] == byte_count(src@, min_idx as u8));
        }
        assert forall|b: u8| b < min_idx as u8 implies byte_count(src@, min_idx as u8) < #[trigger] byte_count(src@, b) by {
            assert(freqs@[b as int] == byte_count(src@, b));
            assert(freqs@[min_idx as int] == byte_count(src@, min_idx as u8));
        }
    }
    proof {
        lemma_least_frequent_unique(src@, min_idx as u8, spec_least_frequent_byte(src@));
    }
    min_idx as u8
}

/// `t` occurs in `src` at `pos`.
pub open spec fn token_matches(src: Seq<u8>, pos: int, t: Seq<u8>) -> bool {
    pos + t.len() <= src.len() && src.subrange(pos, pos + t.len()) == t
}

/// Longest token among the first `k` that occurs at `pos` (the first one on ties), as
/// `(index, length)`; `(-1, 0)` when none of positive length occurs.
pub open spec fn best_token(src: Seq<u8>, pos: int, tokens: Seq<Seq<u8>>, k: int) -> (int, int)
    decreases k,
{
    if k <= 0 {
        (-1, 0)
    } else {
        let (bi, bl) = best_token(src, pos, tokens, k - 1);
        let t = tokens[k - 1];
        if t.len() > bl && token_matches(src, pos, t) {
            (k - 1, t.len() as int)
        } else {
            (bi, bl)
        }
    }
}

/// Number of tokens that substitution may refer to.
pub open spec fn usable_tokens(tokens: Seq<Seq<u8>>) -> int {
    if tokens.len() < 254 { tokens.len() as int } else { 254 }
}

pub proof fn lemma_best_token(src: Seq<u8>, pos: int, tokens: Seq<Seq<u8>>, k: int)
    requires
        0 <= k <= tokens.len(),
    ensures
        ({
            let (bi, bl) = best_token(src, pos, tokens, k);
            &&& bl >= 0
            &&& bi < k
            &&& (bi < 0 ==> bl == 0)
            &&& (bi >= 0 ==> bl == tokens[bi].len() && bl > 0 && token_matches(src, pos, tokens[bi]))
        }),
    decreases k,
{
    if k > 0 {
        lemma_best_token(src, pos, tokens, k - 1);
    }
}

/// Token substitution of `src[pos..]`.
pub open spec fn spec_substitute_from(src: Seq<u8>, pos: int, tokens: Seq<Seq<u8>>, esc: u8) -> Seq<u8>
    decreases src.len() - pos,
{
    if pos < 0 || pos >= src.len() {
        Seq::<u8>::empty()
    } else {
        let (bi, bl) = best_token(src, pos, tokens, usable_tokens(tokens));
        if bi >= 0 && bl >= 3 {
            proof {
                lemma_best_token(src, pos, tokens, usable_tokens(tokens));
            }
            seq![esc, bi as u8] + spec_substitute_from(src, pos + bl, tokens, esc)
        } else if src[pos] == esc {
            seq![esc, ESC_LITERAL_TAG] + spec_substitute_from(src, pos + 1, tokens, esc)
        } else {
            seq![src[pos]] + spec_substitute_from(src, pos + 1, tokens, esc)
        }
    }
}

fn matches_at(src: &[u8], pos: usize, t: &[u8]) -> (r: bool)
    requires
        pos <= src@.len(),
    ensures
        r == token_matches(src@, pos as int, t@),
{
    if t.len() > src.len() - pos {
        return false;
    }
    let mut j: usize = 0;
    while j < t.len()
        invariant
            j <= t@.len(),
            pos + t@.len() <= src@.len(),
            src@.len() <= usize::MAX,
            forall|x: int| 0 <= x < j ==> src@[pos + x] == t@[x],
        decreases t@.len() - j,
    {
        if src[pos + j] != t[j] {
            assert(src@.subrange(pos as int, pos + t@.len())[j as int] != t@[j as int]);
            return false;
        }
        j = j + 1;
    }
    assert(src@.subrange(pos as int, pos + t@.len()) =~= t@);
    true
}

/// Replace dictionary tokens of length >= 3 in `src` by `[esc, index]`, greedily taking the
/// longest token at each position; a literal `esc` becomes `[esc, 0xFF]`.
pub fn substitute_tokens(src: &[u8], tokens: &[Vec<u8>], esc_byte: u8) -> (r: Vec<u8>)
    ensures
        r@ == spec_substitute_from(src@, 0, tokens.deep_view(), esc_byte),
{
    let ghost toks = tokens.deep_view();
    let mut out: Vec<u8> = Vec::new();
    let mut pos: usize = 0;
    let n = src.len();
    let limit = if tokens.len() < MAX_DICT_TOKENS { tokens.len() } else { MAX_DICT_TOKENS };
    while pos < n
        invariant
            pos <= n,
            n == src@.len(),
            toks == tokens.deep_view(),
            limit == usable_tokens(toks),
            spec_substitute_from(src@, 0, toks, esc_byte) == out@ + spec_substitute_from(src@, pos as int, toks, esc_byte),
        decreases n - pos,
    {
        let mut best_idx: usize = 0;
        let mut found = false;
        let mut best_len: usize = 0;
        let mut idx: usize = 0;
        while idx < limit
            invariant
                idx <= limit,
                limit <= tokens@.len(),
                pos < n,
                n == src@.len(),
                toks == tokens.deep_view(),
                best_token(src@, pos as int, toks, idx as int) == (if found { best_idx as int } else { -1int }, best_len as int),
            decreases limit - idx,
        {
            assert(toks[idx as int] == tokens@[idx as int]@);
            let t_len = tokens[idx].len();
            if t_len > best_len && matches_at(src, pos, tokens[idx].as_slice()) {
                best_idx = idx;
                best_len = t_len;
                found = true;
            }
            idx = idx + 1;
        }
        proof {
            lemma_best_token(src@, pos as int, toks, limit as int);
        }
        let ghost before = out@;
        let ghost p0 = pos as int;
        if found && best_len >= 3 {
            out.push(esc_byte);
            out.push(best_idx as u8);
            pos = pos + best_len;
            assert(out@ =~= before + seq![esc_byte, best_idx as u8]);
        } else {
            let b = src[pos];
            if b == esc_byte {
                out.push(esc_byte);
                out.push(ESC_LITERAL_TAG);
                assert(out@ =~= before + seq![esc_byte, ESC_LITERAL_TAG]);
            } else {
                out.push(b);
                assert(out@ =~= before + seq![b]);
            }
            pos = pos + 1;
        }
        assert(before + spec_substitute_from(src@, p0, toks, esc_byte) =~= out@ + spec_substitute_from(src@, pos as int, toks, esc_byte));
    }
    assert(out@ + Seq::<u8>::empty() =~= out@);
    out
}

/// Outcome of reversing token substitution.
pub enum InvertResult {
    /// The recovered bytes.
    Done(Seq<u8>),
    /// An escape byte at the very end.
    Truncated,
    /// A token index past the end of the token table.
    BadIndex(u8),
    /// The output would exceed the limit; the size that was requested.
    Bomb(int),
}

/// `x` as a `u64`, saturating at `u64::MAX`.
pub open spec fn clamp_u64(x: int) -> u64 {
    if x > u64::MAX { u64::MAX } else { x as u64 }
}

/// Reversal of token substitution on `t`, appending to `out`, with output limit `max`.
pub open spec fn spec_invert_from(t: Seq<u8>, tokens: Seq<Seq<u8>>, esc: u8, out: Seq<u8>, max: int) -> InvertResult
    decreases t.len(),
{
    if t.len() == 0 {
        InvertResult::Done(out)
    } else if t[0] == esc {
        if t.len() < 2 {
            InvertResult::Truncated
        } else {
            let tag = t[1];
            if tag == ESC_LITERAL_TAG {
                if out.len() >= max {
                    InvertResult::Bomb(out.len() + 1int)
                } else {
                    spec_invert_from(t.skip(2), tokens, esc, out.push(esc), max)
                }
            } else if tag >= tokens.len() {
                InvertResult::BadIndex(tag)
            } else {
                let tok = tokens[tag as int];
                if out.len() + tok.len() > max {
                    InvertResult::Bomb(out.len() + tok.len() as int)
                } else {
                    spec_invert_from(t.skip(2), tokens, esc, out + tok, max)
                }
            }
        }
    } else if out.len() >= max {
        InvertResult::Bomb(out.len() + 1int)
    } else {
        spec_invert_from(t.skip(1), tokens, esc, out.push(t[0]), max)
    }
}

/// Reversal of token substitution of all of `t`, with output limit `max`.
pub open spec fn spec_invert_tokens(t: Seq<u8>, tokens: Seq<Seq<u8>>, esc: u8, max: int) -> InvertResult {
    spec_invert_from(t, tokens, esc, Seq::<u8>::empty(), max)
}

/// `r` is what a reversal with outcome `res` and output limit `max` returns.
pub open spec fn invert_result_is(res: InvertResult, r: CodropResult<Vec<u8>>, max: usize) -> bool {
    match res {
        InvertResult::Done(d) => r matches Ok(v) && v@ == d,
        InvertResult::Truncated => r matches Err(CodropError::CorruptedPrefilterData(_)),
        InvertResult::BadIndex(_) => r matches Err(CodropError::CorruptedPrefilterData(_)),
        InvertResult::Bomb(req) => r == Err::<Vec<u8>, CodropError>(
            CodropError::DecompressionBombDetected { limit: max as u64, requested: clamp_u64(req) },
        ),
    }
}

/// Reverse token substitution, refusing outputs longer than `max_output_size`.
pub fn invert_tokens(src: &[u8], tokens: &[Vec<u8>], esc_byte: u8, max_output_size: usize) -> (r: CodropResult<Vec<u8>>)
    ensures
        invert_result_is(spec_invert_tokens(src@, tokens.deep_view(), esc_byte, max_output_size as int), r, max_output_size),
{
    let ghost toks = tokens.deep_view();
    let ghost max = max_output_size as int;
    let mut out: Vec<u8> = Vec::new();
    let mut i: usize = 0;
    let n = src.len();
    assert(src@.skip(0) =~= src@);
    while i < n
        invariant
            i <= n,
            n == src@.len(),
            toks == tokens.deep_view(),
            max == max_output_size as int,
            out@.len() <= max,
            spec_invert_from(src@, toks, esc_byte, Seq::<u8>::empty(), max) == spec_invert_from(src@.skip(i as int), toks, esc_byte, out@, max),
        decreases n - i,
    {
        let b = src[i];
        if b == esc_byte {
            if n - i < 2 {
                return Err(CodropError::CorruptedPrefilterData("truncated escape sequence in dictionary stream".to_string()));
            }
            let tag = src[i + 1];
            assert(src@.skip(i as int)[1] == tag);
            assert(src@.skip(i as int).skip(2) =~= src@.skip(i + 2));
            if tag == ESC_LITERAL_TAG {
                if out.len() >= max_output_size {
                    return Err(CodropError::DecompressionBombDetected { limit: max_output_size as u64, requested: (out.len() as u64).saturating_add(1) });
                }
                out.push(esc_byte);
            } else {
                let token_idx = tag as usize;
                if token_idx >= tokens.len() {
                    return Err(CodropError::CorruptedPrefilterData("out of bounds dictionary token index".to_string()));
                }
                let tok_len = tokens[token_idx].len();
                assert(toks[token_idx as int] == tokens@[token_idx as int]@);
                if tok_len > max_output_size - out.len() {
                    return Err(CodropError::DecompressionBombDetected { limit: max_output_size as u64, requested: (out.len() as u64).saturating_add(tok_len as u64) });
                }
                append_slice(&mut out, tokens[token_idx].as_slice());
            }
            i = i + 2;
        } else {
            if out.len() >= max_output_size {
                return Err(CodropError::DecompressionBombDetected { limit: max_output_size as u64, requested: (out.len() as u64).saturating_add(1) });
            }
            out.push(b);
            assert(src@.skip(i as int).skip(1) =~= src@.skip(i + 1));
            i = i + 1;
        }
    }
    Ok(out)
}

proof fn lemma_invert_substitute(x: Seq<u8>, pos: int, tokens: Seq<Seq<u8>>, esc: u8, max: int)
    requires
        0 <= pos <= x.len(),
        x.len() <= max,
    ensures
        spec_invert_from(spec_substitute_from(x, pos, tokens, esc), tokens, esc, x.take(pos), max) == InvertResult::Done(x),
    decreases x.len() - pos,
{
    if pos == x.len() {
        assert(x.take(pos) =~= x);
    } else {
        let k = usable_tokens(tokens);
        lemma_best_token(x, pos, tokens, k);
        let (bi, bl) = best_token(x, pos, tokens, k);
        if bi >= 0 && bl >= 3 {
            let rest = spec_substitute_from(x, pos + bl, tokens, esc);
            let t = seq![esc, bi as u8] + rest;
            assert(t[0] == esc && t[1] == bi as u8);
            assert(t.skip(2) =~= rest);
            assert((bi as u8) as int == bi);
            assert(x.take(pos) + tokens[bi] =~= x.take(pos + bl));
            lemma_invert_substitute(x, pos + bl, tokens, esc, max);
        } else if x[pos] == esc {
            let rest = spec_substitute_from(x, pos + 1, tokens, esc);
            let t = seq![esc, ESC_LITERAL_TAG] + rest;
            assert(t.skip(2) =~= rest);
            assert(x.take(pos).push(esc) =~= x.take(pos + 1));
            lemma_invert_substitute(x, pos + 1, tokens, esc, max);
        } else {
            let rest = spec_substitute_from(x, pos + 1, tokens, esc);
            let t = seq![x[pos]] + rest;
            assert(t.skip(1) =~= rest);
            assert(x.take(pos).push(x[pos]) =~= x.take(pos + 1));
            lemma_invert_substitute(x, pos + 1, tokens, esc, max);
        }
    }
}

/// Reversing the substitution of any token table and escape byte gives the input back, when the
/// output limit admits it.
pub proof fn law_substitute_invert(x: Seq<u8>, tokens: Seq<Seq<u8>>, esc: u8, max: int)
    requires
        x.len() <= max,
    ensures
        spec_invert_tokens(spec_substitute_from(x, 0, tokens, esc), tokens, esc, max) == InvertResult::Done(x),
{
    assert(x.take(0) =~= Seq::<u8>::empty());
    lemma_invert_substitute(x, 0, tokens, esc, max);
}

} // verus!
