//! Module identities: how an import names the module it imports, and the
//! text of a token.

use vstd::prelude::*;
use vstd::string::{StrSliceExecFns, StringExecFns, StringSliceAdditionalSpecFns};
use vstd::utf8::{
    decode_utf8, encode_utf8_decode_utf8, encode_utf8_valid_utf8, is_char_boundary,
    is_char_boundary_iff_is_leading_byte, is_char_boundary_start_end_of_seq,
    length_of_first_scalar, pop_first_scalar, valid_utf8, valid_utf8_split,
};

verus! {

/// After an ASCII byte of valid UTF-8 a new character begins.
proof fn lemma_boundary_after_ascii(b: Seq<u8>, k: int)
    requires
        valid_utf8(b),
        0 < k <= b.len(),
        b[k - 1] < 0x80,
    ensures
        is_char_boundary(b, k),
    decreases b.len(),
{
    if k == b.len() {
        is_char_boundary_start_end_of_seq(b);
    } else {
        let l = length_of_first_scalar(b);
        let rest = pop_first_scalar(b);
        is_char_boundary_iff_is_leading_byte(b, k - 1);
        if k - 1 == 0 {
            reveal_with_fuel(is_char_boundary, 2);
        } else {
            assert(rest[k - 1 - l] == b[k - 1]);
            lemma_boundary_after_ascii(rest, k - l);
        }
    }
}

/// The text of the bytes `start..end` of `source`, which are all ASCII.
pub fn ascii_slice(source: &str, start: usize, end: usize) -> (r: &str)
    requires
        start < end <= source.spec_bytes().len(),
        forall|i: int| start <= i < end ==> #[trigger] source.spec_bytes()[i] < 0x80,
    ensures
        r.spec_bytes() == source.spec_bytes().subrange(start as int, end as int),
        r@ == decode_utf8(source.spec_bytes().subrange(start as int, end as int)),
{
    let ghost b = source.spec_bytes();
    proof {
        encode_utf8_valid_utf8(source@);
        lemma_boundary_after_ascii(b, end as int);
    }
    let (head, _) = source.split_at(end);
    proof {
        valid_utf8_split(b, end as int);
        assert(head.spec_bytes() =~= b.subrange(0, end as int));
        is_char_boundary_iff_is_leading_byte(head.spec_bytes(), start as int);
    }
    let (_, name) = head.split_at(start);
    proof {
        assert(name.spec_bytes() =~= b.subrange(start as int, end as int));
        encode_utf8_decode_utf8(name@);
    }
    name
}

/// The directory part of an identity: everything up to and including its last `/`.
pub open spec fn parent_of(u: Seq<char>) -> Seq<char>
    decreases u.len(),
{
    if u.len() == 0 || u.last() == '/' {
        u
    } else {
        parent_of(u.drop_last())
    }
}

/// The identity that an import of `name` in the module `from` denotes: a module
/// beside `from` when the import is relative, else one under `stdlib`.
pub open spec fn resolved(stdlib: Seq<char>, from: Seq<char>, relative: bool, name: Seq<char>) -> Seq<
    char,
> {
    (if relative {
        parent_of(from)
    } else {
        as_dir(stdlib)
    }) + name + ".adroit"@
}

/// A directory identity, ending in `/`.
pub open spec fn as_dir(u: Seq<char>) -> Seq<char> {
    if u.len() > 0 && u.last() == '/' {
        u
    } else {
        u + "/"@
    }
}

/// The directory part of `u`.
pub fn parent(u: &str) -> (r: &str)
    ensures
        r@ == parent_of(u@),
{
    let n = u.unicode_len();
    let mut k: usize = n;
    assert(u@.take(k as int) =~= u@);
    while k > 0 && u.get_char(k - 1) != '/'
        invariant
            k <= n,
            n == u@.len(),
            parent_of(u@.take(k as int)) == parent_of(u@),
        decreases k,
    {
        assert(u@.take(k as int).drop_last() =~= u@.take(k - 1));
        k = k - 1;
    }
    u.substring_char(0, k)
}

/// The identity that an import of `name` in the module `from` denotes.
pub fn resolve_import(stdlib: &str, from: &str, relative: bool, name: &str) -> (r: String)
    ensures
        r@ == resolved(stdlib@, from@, relative, name@),
{
    if relative {
        String::from_str(parent(from)).concat(name).concat(".adroit")
    } else {
        let n = stdlib.unicode_len();
        let base = if n > 0 && stdlib.get_char(n - 1) == '/' {
            String::from_str(stdlib)
        } else {
            String::from_str(stdlib).concat("/")
        };
        base.concat(name).concat(".adroit")
    }
}

} // verus!
