//! A small stand-alone type guesser over the primitive `from_str` grammars.

use vstd::prelude::*;
use vstd::string::StringSliceAdditionalSpecFns;
use crate::field_type::is_u64_text;
use crate::field_type::is_i64_text;
use crate::field_type::is_float_text;
use crate::field_type::unsigned_parses;
use crate::field_type::signed_parses;
use crate::field_type::float_parses;

verus! {

/// Admissibility bits over the five primitive types.
#[derive(Debug, Default, Clone, Copy, PartialEq, Eq, Structural)]
pub struct Types {
    pub unsigned: bool,
    pub signed: bool,
    pub text: bool,
    pub boolean: bool,
    pub float: bool,
}

/// `bool::from_str` accepts exactly `true` and `false`.
pub open spec fn is_bool_text(s: Seq<u8>) -> bool {
    ||| s == seq![0x74u8, 0x72u8, 0x75u8, 0x65u8]
    ||| s == seq![0x66u8, 0x61u8, 0x6cu8, 0x73u8, 0x65u8]
}

fn bool_parses(b: &[u8]) -> (r: bool)
    ensures
        r == is_bool_text(b@),
{
    let n = b.len();
    let r = if n == 4 {
        b[0] == 0x74 && b[1] == 0x72 && b[2] == 0x75 && b[3] == 0x65
    } else if n == 5 {
        b[0] == 0x66 && b[1] == 0x61 && b[2] == 0x6c && b[3] == 0x73 && b[4] == 0x65
    } else {
        false
    };
    proof {
        if r {
            if n == 4 {
                assert(b@ =~= seq![0x74u8, 0x72u8, 0x75u8, 0x65u8]);
            } else {
                assert(b@ =~= seq![0x66u8, 0x61u8, 0x6cu8, 0x73u8, 0x65u8]);
            }
        } else {
            assert(b@ != seq![0x74u8, 0x72u8, 0x75u8, 0x65u8]);
            assert(b@ != seq![0x66u8, 0x61u8, 0x6cu8, 0x73u8, 0x65u8]);
        }
    }
    r
}

/// The primitive types whose parsers accept the field: text always, and
/// each numeric or boolean type exactly when its grammar matches.
pub fn infer_types(s: &str) -> (r: Types)
    ensures
        r.text,
        r.unsigned == is_u64_text(s.spec_bytes()),
        r.signed == is_i64_text(s.spec_bytes()),
        r.boolean == is_bool_text(s.spec_bytes()),
        r.float == is_float_text(s.spec_bytes()),
{
    let b = s.as_bytes();
    Types {
        unsigned: unsigned_parses(b),
        signed: signed_parses(b),
        text: true,
        boolean: bool_parses(b),
        float: float_parses(b),
    }
}

} // verus!
