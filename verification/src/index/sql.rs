use vstd::prelude::*;

use crate::engine::errors::{CoreError, CoreResult};

verus! {

/// A character of the Unicode White_Space set: what `str::trim` removes.
pub open spec fn is_white(c: char) -> bool {
    ||| (0x09 <= c as u32 && c as u32 <= 0x0D)
    ||| c as u32 == 0x20
    ||| c as u32 == 0x85
    ||| c as u32 == 0xA0
    ||| c as u32 == 0x1680
    ||| (0x2000 <= c as u32 && c as u32 <= 0x200A)
    ||| c as u32 == 0x2028
    ||| c as u32 == 0x2029
    ||| c as u32 == 0x202F
    ||| c as u32 == 0x205F
    ||| c as u32 == 0x3000
}

/// Whether every character of `s` is whitespace; holds of the empty string.
pub open spec fn all_white(s: Seq<char>) -> bool {
    forall|i: int| 0 <= i < s.len() ==> is_white(#[trigger] s[i])
}

/// A character allowed in a dynamic SQL identifier: ASCII letters, digits,
/// and the underscore.
pub open spec fn is_ident_char(c: char) -> bool {
    ||| (0x30 <= c as u32 && c as u32 <= 0x39)
    ||| (0x41 <= c as u32 && c as u32 <= 0x5A)
    ||| (0x61 <= c as u32 && c as u32 <= 0x7A)
    ||| c as u32 == 0x5F
}

/// Whether every character of `s` is an identifier character.
pub open spec fn all_ident(s: Seq<char>) -> bool {
    forall|i: int| 0 <= i < s.len() ==> is_ident_char(#[trigger] s[i])
}

/// Exec decision of `is_white`.
fn white_char(c: char) -> (r: bool)
    ensures
        r == is_white(c),
{
    let u = c as u32;
    (0x09 <= u && u <= 0x0D) || u == 0x20 || u == 0x85 || u == 0xA0 || u == 0x1680 || (0x2000 <= u
        && u <= 0x200A) || u == 0x2028 || u == 0x2029 || u == 0x202F || u == 0x205F || u == 0x3000
}

/// Exec decision of `is_ident_char`.
fn ident_char(c: char) -> (r: bool)
    ensures
        r == is_ident_char(c),
{
    let u = c as u32;
    (0x30 <= u && u <= 0x39) || (0x41 <= u && u <= 0x5A) || (0x61 <= u && u <= 0x7A) || u == 0x5F
}

/// Whether `s` holds at least one non-whitespace character, i.e. whether
/// `str::trim` would leave it non-empty.
pub fn has_visible(s: &str) -> (r: bool)
    ensures
        r == !all_white(s@),
{
    let n = s.unicode_len();
    let mut has_content: bool = false;
    for i in 0..n
        invariant
            n as nat == s@.len(),
            has_content <==> exists|k: int| 0 <= k < i as int && !is_white(#[trigger] s@[k]),
    {
        if !white_char(s.get_char(i)) {
            has_content = true;
        }
    }
    proof {
        if has_content {
            let k = choose|k: int| 0 <= k < s@.len() && !is_white(#[trigger] s@[k]);
        }
    }
    has_content
}

/// Whether two text values hold the same characters.
pub fn str_eq(a: &str, b: &str) -> (r: bool)
    ensures
        r == (a@ == b@),
{
    let ao: String = a.to_owned();
    let bo: String = b.to_owned();
    ao == bo
}

/// Validates a dynamic table identifier: it must hold at least one
/// non-whitespace character, and nothing but ASCII letters, digits and
/// underscores. The guard that keeps table names out of SQL injection.
pub fn validate_identifier(value: &str, field_name: &str) -> (r: CoreResult<()>)
    ensures
        r is Ok <==> !all_white(value@) && all_ident(value@),
        r matches Err(e) ==> e is InvalidConfig,
{
    let n = value.unicode_len();
    let mut has_content: bool = false;
    for i in 0..n
        invariant
            n as nat == value@.len(),
            has_content <==> exists|k: int| 0 <= k < i as int && !is_white(#[trigger] value@[k]),
    {
        if !white_char(value.get_char(i)) {
            has_content = true;
        }
    }
    if !has_content {
        return Err(
            CoreError::InvalidConfig(field_name.to_owned().concat(" must not be empty")),
        );
    }
    for i in 0..n
        invariant
            n as nat == value@.len(),
            forall|k: int| 0 <= k < i as int ==> is_ident_char(#[trigger] value@[k]),
    {
        if !ident_char(value.get_char(i)) {
            return Err(
                CoreError::InvalidConfig(
                    field_name.to_owned().concat(
                        " may hold only ASCII letters, digits and underscores",
                    ),
                ),
            );
        }
    }
    proof {
        let k = choose|k: int| 0 <= k < value@.len() && !is_white(#[trigger] value@[k]);
    }
    Ok(())
}

} // verus!
