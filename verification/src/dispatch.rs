//! The HTTP-facing response logic: the reserved liveness endpoint, the
//! table lookup, and the structured not-found body, all over plain bytes.

use crate::command::HttpMethod;
use crate::path::copy_bytes;
use crate::server::ServerState;
use vstd::prelude::*;

verus! {

/// A reply to one HTTP request: a status code and a response body.
#[derive(Debug)]
pub struct HttpReply {
    pub status: u16,
    pub body: Vec<u8>,
}

/// The bytes of the reserved liveness path `/api/health`.
pub open spec fn health_path() -> Seq<u8> {
    seq![47u8, 97u8, 112u8, 105u8, 47u8, 104u8, 101u8, 97u8, 108u8, 116u8, 104u8]
}

/// Whether a request hits the always-available liveness endpoint.
pub open spec fn is_health(method: HttpMethod, path: Seq<u8>) -> bool {
    method == HttpMethod::Get && path == health_path()
}

/// The bytes of the liveness body `OK`.
pub open spec fn ok_body() -> Seq<u8> {
    seq![79u8, 75u8]
}

/// One escaped byte of a JSON string: quote and backslash get a backslash,
/// the named control characters their short forms, other control characters
/// a `\u00..` escape, and everything else stands for itself.
pub open spec fn esc_byte(b: u8) -> Seq<u8> {
    if b == 34 {
        seq![92u8, 34u8]
    } else if b == 92 {
        seq![92u8, 92u8]
    } else if b == 8 {
        seq![92u8, 98u8]
    } else if b == 9 {
        seq![92u8, 116u8]
    } else if b == 10 {
        seq![92u8, 110u8]
    } else if b == 12 {
        seq![92u8, 102u8]
    } else if b == 13 {
        seq![92u8, 114u8]
    } else if b < 32 {
        seq![92u8, 117u8, 48u8, 48u8, hex_digit(b as int / 16), hex_digit(b as int % 16)]
    } else {
        seq![b]
    }
}

/// The lower-case hexadecimal digit for a value below 16.
pub open spec fn hex_digit(n: int) -> u8 {
    if n < 10 {
        (48 + n) as u8
    } else {
        (87 + n) as u8
    }
}

/// A byte string escaped for inclusion in a JSON string literal.
pub open spec fn json_escaped(s: Seq<u8>) -> Seq<u8>
    decreases s.len(),
{
    if s.len() == 0 {
        seq![]
    } else {
        esc_byte(s[0]) + json_escaped(s.drop_first())
    }
}

/// The bytes of `{"error":"not found","path":"`.
pub open spec fn not_found_prefix() -> Seq<u8> {
    seq![
        123u8,
        34u8,
        101u8,
        114u8,
        114u8,
        111u8,
        114u8,
        34u8,
        58u8,
        34u8,
        110u8,
        111u8,
        116u8,
        32u8,
        102u8,
        111u8,
        117u8,
        110u8,
        100u8,
        34u8,
        44u8,
        34u8,
        112u8,
        97u8,
        116u8,
        104u8,
        34u8,
        58u8,
        34u8,
    ]
}

/// The JSON body sent for a miss: `{"error":"not found","path":"<path>"}`
/// with the requested path escaped.
pub open spec fn not_found_body(path: Seq<u8>) -> Seq<u8> {
    not_found_prefix() + json_escaped(path) + seq![34u8, 125u8]
}

/// Escaping one more byte appends its escape.
proof fn lemma_json_escaped_push(s: Seq<u8>, x: u8)
    ensures
        json_escaped(s.push(x)) == json_escaped(s) + esc_byte(x),
    decreases s.len(),
{
    if s.len() == 0 {
        assert(s.push(x)[0] == x);
        assert(s.push(x).drop_first() =~= s);
        assert(json_escaped(s) =~= Seq::<u8>::empty());
        assert(json_escaped(s.push(x)) == esc_byte(x) + json_escaped(s.push(x).drop_first()));
        assert(json_escaped(s.push(x)) =~= json_escaped(s) + esc_byte(x));
    } else {
        assert(s.push(x)[0] == s[0]);
        assert(s.push(x).drop_first() =~= s.drop_first().push(x));
        lemma_json_escaped_push(s.drop_first(), x);
        assert(json_escaped(s.push(x)) =~= json_escaped(s) + esc_byte(x));
    }
}

/// Builds the not-found JSON body for a requested path.
fn render_not_found(path: &[u8]) -> (v: Vec<u8>)
    ensures
        v@ == not_found_body(path@),
{
    let prefix: [u8; 29] = [
        123u8, 34u8, 101u8, 114u8, 114u8, 111u8, 114u8, 34u8, 58u8, 34u8, 110u8, 111u8, 116u8,
        32u8, 102u8, 111u8, 117u8, 110u8, 100u8, 34u8, 44u8, 34u8, 112u8, 97u8, 116u8, 104u8,
        34u8, 58u8, 34u8,
    ];
    let mut v: Vec<u8> = Vec::new();
    let mut i: usize = 0;
    while i < 29
        invariant
            i <= 29,
            prefix@ == not_found_prefix(),
            v@ == not_found_prefix().subrange(0, i as int),
        decreases 29 - i,
    {
        v.push(prefix[i]);
        proof {
            assert(v@ =~= not_found_prefix().subrange(0, i as int + 1));
        }
        i = i + 1;
    }
    proof {
        assert(v@ =~= not_found_prefix());
        assert(path@.subrange(0, 0) =~= Seq::<u8>::empty());
        assert(json_escaped(path@.subrange(0, 0)) =~= Seq::<u8>::empty());
        assert(v@ =~= not_found_prefix() + json_escaped(path@.subrange(0, 0)));
    }
    let mut j: usize = 0;
    while j < path.len()
        invariant
            j <= path@.len(),
            v@ == not_found_prefix() + json_escaped(path@.subrange(0, j as int)),
        decreases path@.len() - j,
    {
        let b = path[j];
        if b == 34 {
            v.push(92);
            v.push(34);
        } else if b == 92 {
            v.push(92);
            v.push(92);
        } else if b == 8 {
            v.push(92);
            v.push(98);
        } else if b == 9 {
            v.push(92);
            v.push(116);
        } else if b == 10 {
            v.push(92);
            v.push(110);
        } else if b == 12 {
            v.push(92);
            v.push(102);
        } else if b == 13 {
            v.push(92);
            v.push(114);
        } else if b < 32 {
            v.push(92);
            v.push(117);
            v.push(48);
            v.push(48);
            let hi = b / 16;
            let lo = b % 16;
            v.push(if hi < 10 {
                48 + hi
            } else {
                87 + hi
            });
            v.push(if lo < 10 {
                48 + lo
            } else {
                87 + lo
            });
        } else {
            v.push(b);
        }
        proof {
            assert(path@.subrange(0, j as int + 1) =~= path@.subrange(0, j as int).push(
                path@[j as int],
            ));
            lemma_json_escaped_push(path@.subrange(0, j as int), path@[j as int]);
            assert(v@ =~= not_found_prefix() + json_escaped(path@.subrange(0, j as int + 1)));
        }
        j = j + 1;
    }
    proof {
        assert(path@.subrange(0, path@.len() as int) =~= path@);
    }
    v.push(34);
    v.push(125);
    proof {
        assert(v@ =~= not_found_body(path@));
    }
    v
}

/// Whether two byte strings are equal.
fn bytes_eq(a: &[u8], b: &[u8]) -> (r: bool)
    ensures
        r <==> a@ == b@,
{
    matches!(crate::order::lex_cmp(a, b), crate::order::KeyOrder::Equal)
}

/// Turns a lookup result into the HTTP reply: the stored body verbatim with
/// status 200, or status 404 with the structured not-found body.
pub fn respond(found: Option<Vec<u8>>, path: &[u8]) -> (r: HttpReply)
    ensures
        match found {
            Some(b) => r.status == 200 && r.body@ == b@,
            None => r.status == 404 && r.body@ == not_found_body(path@),
        },
{
    match found {
        Some(b) => HttpReply { status: 200, body: b },
        None => HttpReply { status: 404, body: render_not_found(path) },
    }
}

/// Serves one inbound request: the reserved liveness endpoint first, then
/// the table lookup under shared (read) access.
pub fn handle_request(state: &ServerState, method: HttpMethod, path: &[u8]) -> (r: HttpReply)
    requires
        state.wf(),
    ensures
        is_health(method, path@) ==> r.status == 200 && r.body@ == ok_body(),
        !is_health(method, path@) ==> r.status == 200 || r.status == 404,
        r.status == 404 ==> r.body@ == not_found_body(path@),
{
    let health: [u8; 11] = [47u8, 97u8, 112u8, 105u8, 47u8, 104u8, 101u8, 97u8, 108u8, 116u8,
        104u8];
    let is_get = matches!(method, HttpMethod::Get);
    if is_get && bytes_eq(path, health.as_slice()) {
        let mut body: Vec<u8> = Vec::new();
        body.push(79);
        body.push(75);
        proof {
            assert(body@ =~= ok_body());
            assert(health@ =~= health_path());
        }
        HttpReply { status: 200, body }
    } else {
        proof {
            assert(health@ =~= health_path());
        }
        let handle = state.endpoints.acquire_read();
        let found = match handle.borrow().get(method, path) {
            Some(b) => Some(copy_bytes(b.as_slice())),
            None => None,
        };
        handle.release_read();
        respond(found, path)
    }
}

} // verus!
