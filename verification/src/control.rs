//! Parsing of the CONN control line that opens every client session.
//!
//! A client's first message is ASCII text of whitespace-separated fields:
//! `CONN <address> <app_proto>`, in at most 2048 bytes. The first field must
//! be the literal `CONN` and at least three fields must be present; the
//! second and third fields are the destination address and the application
//! protocol.

use vstd::prelude::*;

verus! {

use vstd::slice::slice_index_get;
use vstd::slice::slice_subrange;
use vstd::slice::slice_to_vec;
use crate::frame::conn_magic;

/// Whether a byte is ASCII whitespace: space, tab, line feed, vertical tab,
/// form feed or carriage return.
pub open spec fn is_ws(b: u8) -> bool {
    b == 0x20 || b == 0x09 || b == 0x0a || b == 0x0b || b == 0x0c || b == 0x0d
}

/// The length of the leading run of non-whitespace bytes.
pub open spec fn token_len(s: Seq<u8>) -> nat
    decreases s.len(),
{
    if s.len() == 0 || is_ws(s[0]) {
        0
    } else {
        1 + token_len(s.skip(1))
    }
}

/// A token never runs past the end of the byte string.
pub proof fn lemma_token_len_le(s: Seq<u8>)
    ensures
        token_len(s) <= s.len(),
    decreases s.len(),
{
    if s.len() > 0 && !is_ws(s[0]) {
        lemma_token_len_le(s.skip(1));
    }
}

/// The leading token ends exactly where the first whitespace byte (or the
/// end of the string) is.
pub proof fn lemma_token_len_boundary(s: Seq<u8>, j: int)
    requires
        0 <= j <= s.len(),
        forall|k: int| 0 <= k < j ==> !is_ws(s[k]),
        j == s.len() || is_ws(s[j]),
    ensures
        token_len(s) == j,
    decreases j,
{
    if j == 0 {
    } else {
        assert(!is_ws(s[0]));
        let t = s.skip(1);
        assert(forall|k: int| 0 <= k < j - 1 ==> t[k] == s[k + 1] && !is_ws(t[k]));
        assert(j - 1 == t.len() || is_ws(t[j - 1]));
        lemma_token_len_boundary(t, j - 1);
    }
}

/// The whitespace-separated fields of a byte string, in order: leading
/// whitespace is skipped, and each maximal run of non-whitespace bytes is
/// one field.
pub open spec fn fields(s: Seq<u8>) -> Seq<Seq<u8>>
    decreases s.len(),
    via fields_decreases
{
    if s.len() == 0 {
        seq![]
    } else if is_ws(s[0]) {
        fields(s.skip(1))
    } else {
        seq![s.subrange(0, token_len(s) as int)] + fields(s.skip(token_len(s) as int))
    }
}

#[via_fn]
proof fn fields_decreases(s: Seq<u8>) {
    if s.len() > 0 && !is_ws(s[0]) {
        lemma_token_len_le(s);
    }
}

/// Whether a byte is ASCII whitespace, decided at run time.
fn ws_byte(b: u8) -> (r: bool)
    ensures
        r == is_ws(b),
{
    b == 0x20 || b == 0x09 || b == 0x0a || b == 0x0b || b == 0x0c || b == 0x0d
}

/// Splits a byte string into its whitespace-separated fields.
pub fn split_fields(buf: &[u8]) -> (r: Vec<Vec<u8>>)
    ensures
        r.deep_view() == fields(buf@),
{
    let mut r: Vec<Vec<u8>> = Vec::new();
    let mut i: usize = 0;
    proof {
        assert(buf@.skip(0) =~= buf@);
        assert(r.deep_view() + fields(buf@) =~~= fields(buf@));
    }
    while i < buf.len()
        invariant
            i <= buf@.len(),
            fields(buf@) == r.deep_view() + fields(buf@.skip(i as int)),
        decreases buf@.len() - i,
    {
        let b = *slice_index_get(buf, i);
        if ws_byte(b) {
            proof {
                let s = buf@.skip(i as int);
                assert(is_ws(s[0]));
                assert(s.skip(1) =~= buf@.skip(i as int + 1));
            }
            i = i + 1;
        } else {
            let start = i;
            let mut j = i + 1;
            while j < buf.len() && !ws_byte(*slice_index_get(buf, j))
                invariant
                    start < j <= buf@.len(),
                    forall|k: int| start <= k < j ==> !is_ws(buf@[k]),
                decreases buf@.len() - j,
            {
                j = j + 1;
            }
            let ghost prev = r.deep_view();
            let word = slice_to_vec(slice_subrange(buf, start, j));
            r.push(word);
            proof {
                let s = buf@.skip(start as int);
                assert(forall|k: int| 0 <= k < j - start ==> s[k] == buf@[k + start] && !is_ws(
                    s[k],
                ));
                assert(j - start == s.len() || is_ws(s[j - start]));
                lemma_token_len_boundary(s, j - start);
                assert(s.subrange(0, (j - start) as int) =~= buf@.subrange(
                    start as int,
                    j as int,
                ));
                assert(s.skip((j - start) as int) =~= buf@.skip(j as int));
                assert(fields(buf@.skip(start as int)) == seq![buf@.subrange(
                    start as int,
                    j as int,
                )] + fields(buf@.skip(j as int)));
                assert(r.deep_view() =~~= prev + seq![word@]);
                assert(prev + (seq![word@] + fields(buf@.skip(j as int))) =~= (prev + seq![
                    word@,
                ]) + fields(buf@.skip(j as int)));
                assert(fields(buf@) == r.deep_view() + fields(buf@.skip(j as int)));
            }
            i = j;
        }
    }
    proof {
        assert(buf@.skip(buf@.len() as int) =~= Seq::<u8>::empty());
        assert(r.deep_view() =~= fields(buf@));
    }
    r
}

/// The reasons a CONN control line is refused: the first field is not the
/// literal `CONN`, or fewer than three fields are present.
#[derive(Debug, PartialEq, Eq, Clone, Copy)]
pub enum ControlError {
    NotConn,
    TooFewFields,
}

/// A parsed CONN request: the destination address as it appeared on the
/// wire (it is also the destination key), and the application protocol.
#[derive(Debug)]
pub struct ConnRequest {
    pub address: Vec<u8>,
    pub app_proto: Vec<u8>,
}

/// Parses a client's opening control line. The line's whitespace-separated
/// fields must begin with the literal `CONN` and offer at least an address
/// and an application protocol; each error names exactly which rule failed.
pub fn parse_conn(buf: &[u8]) -> (r: Result<ConnRequest, ControlError>)
    ensures
        ({
            let f = fields(buf@);
            &&& (r matches Err(e) && e == ControlError::NotConn) <==> (f.len() == 0 || f[0]
                != conn_magic())
            &&& (r matches Err(e) && e == ControlError::TooFewFields) <==> (f.len() > 0 && f[0]
                == conn_magic() && f.len() < 3)
            &&& r is Ok <==> (f.len() >= 3 && f[0] == conn_magic())
            &&& r matches Ok(q) ==> q.address@ == f[1] && q.app_proto@ == f[2]
        }),
{
    let ghost f = fields(buf@);
    let mut fs = split_fields(buf);
    proof {
        assert(f.len() == fs@.len());
    }
    if fs.len() == 0 {
        return Err(ControlError::NotConn);
    }
    let w = &fs[0];
    proof {
        assert(f[0] == fs@[0].deep_view());
        assert(fs@[0].deep_view() =~= fs@[0]@);
    }
    let conn_word = w.len() == 4 && w[0] == 0x43u8 && w[1] == 0x4fu8 && w[2] == 0x4eu8 && w[3]
        == 0x4eu8;
    proof {
        if conn_word {
            assert(w@ =~= conn_magic());
        } else {
            assert(w@ != conn_magic()) by {
                if w@ == conn_magic() {
                    assert(w@.len() == 4);
                    assert(w@[0] == 0x43u8 && w@[1] == 0x4fu8 && w@[2] == 0x4eu8 && w@[3]
                        == 0x4eu8);
                }
            }
        }
    }
    if !conn_word {
        return Err(ControlError::NotConn);
    }
    if fs.len() < 3 {
        return Err(ControlError::TooFewFields);
    }
    let ghost orig = fs@;
    let app_proto = fs.remove(2);
    let address = fs.remove(1);
    proof {
        assert(app_proto == orig[2]);
        assert(address == orig.remove(2)[1]);
        assert(orig.remove(2)[1] == orig[1]);
        assert(f[2] == orig[2].deep_view());
        assert(orig[2].deep_view() =~= orig[2]@);
        assert(f[1] == orig[1].deep_view());
        assert(orig[1].deep_view() =~= orig[1]@);
    }
    Ok(ConnRequest { address, app_proto })
}

/// Whether an address names a port (or is an IPv6 literal): it contains a
/// colon.
pub open spec fn has_port(a: Seq<u8>) -> bool {
    exists|i: int| 0 <= i < a.len() && a[i] == 0x3au8
}

/// The bytes `":7878"`: the default remote port, appended when a
/// destination address names none.
pub open spec fn default_port_suffix() -> Seq<u8> {
    seq![0x3au8, 0x37u8, 0x38u8, 0x37u8, 0x38u8]
}

/// Appends the default remote port 7878 to a destination address that
/// names none; an address with a colon is returned unchanged.
pub fn normalize_address(address: &[u8]) -> (r: Vec<u8>)
    ensures
        has_port(address@) ==> r@ == address@,
        !has_port(address@) ==> r@ == address@ + default_port_suffix(),
{
    let n = address.len();
    let mut i: usize = 0;
    while i < n
        invariant
            n == address@.len(),
            i <= n,
            forall|k: int| 0 <= k < i ==> address@[k] != 0x3au8,
        decreases n - i,
    {
        if *slice_index_get(address, i) == 0x3au8 {
            proof {
                assert(has_port(address@));
            }
            return slice_to_vec(address);
        }
        i = i + 1;
    }
    proof {
        if has_port(address@) {
            let j = choose|j: int| 0 <= j < address@.len() && address@[j] == 0x3au8;
            assert(address@[j] != 0x3au8);
        }
    }
    let mut r = slice_to_vec(address);
    r.push(0x3au8);
    r.push(0x37u8);
    r.push(0x38u8);
    r.push(0x37u8);
    r.push(0x38u8);
    proof {
        assert(r@ =~= address@ + default_port_suffix());
    }
    r
}

} // verus!
