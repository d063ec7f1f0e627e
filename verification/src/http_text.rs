//! The textual pieces of the HTTP front end.
//!
//! The surrounding program owns the sockets; this module owns the text:
//! splitting a request path into route and query parameters, parsing a
//! key-value request body, and shaping a plain-text response.

use vstd::prelude::*;
use crate::bit_cask::byte_len;
use crate::error::KvError;
use crate::storage::KV;
use crate::text::{all_digits, dec_digits, dec_val, find_sep, lemma_find_sep, parse_dec_u64,
    push_dec_u64, split_at, split_chars, str_to_chars, chars_to_string};

verus! {

/// The route of a path: everything before the first `?`, or the whole
/// path without one.
pub open spec fn route_chars(s: Seq<char>) -> Seq<char> {
    let i = find_sep(s, '?');
    if i < 0 {
        s
    } else {
        s.take(i)
    }
}

/// The query of a path: everything after the first `?`, or nothing.
pub open spec fn query_chars(s: Seq<char>) -> Seq<char> {
    let i = find_sep(s, '?');
    if i < 0 {
        Seq::empty()
    } else {
        s.skip(i + 1)
    }
}

/// The `key=value` pairs among `&`-separated pieces; a piece without `=`
/// is dropped.
pub open spec fn params_of(ps: Seq<Seq<char>>) -> Seq<(Seq<char>, Seq<char>)>
    decreases ps.len(),
{
    if ps.len() == 0 {
        Seq::empty()
    } else {
        let p = ps[0];
        let j = find_sep(p, '=');
        if j < 0 {
            params_of(ps.drop_first())
        } else {
            seq![(p.take(j), p.skip(j + 1))] + params_of(ps.drop_first())
        }
    }
}

/// The parameters a path's query carries.
pub open spec fn path_params(s: Seq<char>) -> Seq<(Seq<char>, Seq<char>)> {
    if find_sep(s, '?') < 0 {
        Seq::empty()
    } else {
        params_of(split_at(query_chars(s), '&'))
    }
}

/// The views of parsed parameters.
pub open spec fn param_views(ps: Seq<(String, String)>) -> Seq<(Seq<char>, Seq<char>)> {
    Seq::new(ps.len(), |i: int| (ps[i].0@, ps[i].1@))
}

/// The index of the first occurrence of `sep`, if any.
fn find_char(v: &Vec<char>, sep: char) -> (r: Option<usize>)
    ensures
        match r {
            Some(i) => find_sep(v@, sep) == i,
            None => find_sep(v@, sep) == -1,
        },
{
    proof {
        lemma_find_sep(v@, sep);
    }
    let n = v.len();
    let mut i: usize = 0;
    while i < n
        invariant
            i <= n,
            n == v@.len(),
            forall|j: int| 0 <= j < i ==> v@[j] != sep,
        decreases n - i,
    {
        if v[i] == sep {
            proof {
                lemma_find_sep(v@, sep);
                let f = find_sep(v@, sep);
                assert(f >= 0) by {
                    if f == -1 {
                        assert(v@[i as int] != sep);
                    }
                }
                assert(f == i) by {
                    if f < i {
                        assert(v@[f] != sep);
                    }
                    if f > i {
                        assert(v@[i as int] != sep);
                    }
                }
            }
            return Some(i);
        }
        i = i + 1;
    }
    proof {
        lemma_find_sep(v@, sep);
        let f = find_sep(v@, sep);
        if f >= 0 {
            assert(v@[f] != sep);
        }
    }
    None
}

/// Splits a request path into its route and its query parameters
/// (`/route?k1=v1&k2=v2`); a query piece without `=` is dropped.
pub fn parse_path(path: &str) -> (r: (String, Vec<(String, String)>))
    ensures
        r.0@ == route_chars(path@),
        param_views(r.1@) == path_params(path@),
{
    let chars = str_to_chars(path);
    let mut params: Vec<(String, String)> = Vec::new();
    match find_char(&chars, '?') {
        None => {
            proof {
                assert(param_views(params@) =~= path_params(path@));
            }
            (chars_to_string(&chars), params)
        },
        Some(i) => {
            proof {
                lemma_find_sep(chars@, '?');
            }
            let n = chars.len();
            let mut route: Vec<char> = Vec::new();
            let mut k: usize = 0;
            while k < i
                invariant
                    k <= i < n,
                    n == chars@.len(),
                    route@ =~= chars@.take(k as int),
                decreases i - k,
            {
                let c = chars[k];
                route.push(c);
                proof {
                    assert(chars@.take(k + 1) =~= chars@.take(k as int).push(c));
                }
                k = k + 1;
            }
            let mut query: Vec<char> = Vec::new();
            let mut k: usize = i + 1;
            while k < n
                invariant
                    i < k <= n || (k == i + 1 && k > n),
                    n == chars@.len(),
                    i < n,
                    query@ =~= chars@.subrange(i + 1, k as int),
                decreases n - k,
            {
                let c = chars[k];
                query.push(c);
                proof {
                    assert(chars@.subrange(i + 1, k + 1) =~= chars@.subrange(i + 1, k as int).push(
                        c,
                    ));
                }
                k = k + 1;
            }
            proof {
                assert(query@ =~= chars@.skip(i + 1));
            }
            let pieces = split_chars(&query, '&');
            let ghost piece_seqs = split_at(query@, '&');
            let mut j: usize = 0;
            proof {
                assert(piece_seqs.skip(0) =~= piece_seqs);
                assert(param_views(params@) =~= Seq::<(Seq<char>, Seq<char>)>::empty());
                assert(param_views(params@) + params_of(piece_seqs) =~= params_of(piece_seqs));
            }
            while j < pieces.len()
                invariant
                    j <= pieces@.len(),
                    pieces.deep_view() =~= piece_seqs,
                    params_of(piece_seqs) =~= param_views(params@) + params_of(
                        piece_seqs.skip(j as int),
                    ),
                decreases pieces@.len() - j,
            {
                proof {
                    assert(pieces.deep_view()[j as int] == pieces@[j as int]@);
                    assert(piece_seqs.skip(j as int)[0] == piece_seqs[j as int]);
                    assert(piece_seqs.skip(j as int).drop_first() =~= piece_seqs.skip(j + 1));
                }
                let piece = &pieces[j];
                match find_char(piece, '=') {
                    None => {},
                    Some(e) => {
                        proof {
                            lemma_find_sep(piece@, '=');
                        }
                        let m = piece.len();
                        let mut keyc: Vec<char> = Vec::new();
                        let mut l: usize = 0;
                        while l < e
                            invariant
                                l <= e < m,
                                m == piece@.len(),
                                keyc@ =~= piece@.take(l as int),
                            decreases e - l,
                        {
                            let c = piece[l];
                            keyc.push(c);
                            proof {
                                assert(piece@.take(l + 1) =~= piece@.take(l as int).push(c));
                            }
                            l = l + 1;
                        }
                        let mut valc: Vec<char> = Vec::new();
                        let mut l: usize = e + 1;
                        while l < m
                            invariant
                                e < l <= m || (l == e + 1 && l > m),
                                m == piece@.len(),
                                e < m,
                                valc@ =~= piece@.subrange(e + 1, l as int),
                            decreases m - l,
                        {
                            let c = piece[l];
                            valc.push(c);
                            proof {
                                assert(piece@.subrange(e + 1, l + 1) =~= piece@.subrange(
                                    e + 1,
                                    l as int,
                                ).push(c));
                            }
                            l = l + 1;
                        }
                        let ghost old_views = param_views(params@);
                        let ghost kv = (keyc@, valc@);
                        params.push((chars_to_string(&keyc), chars_to_string(&valc)));
                        proof {
                            assert(valc@ =~= piece@.skip(e + 1));
                            assert(param_views(params@) =~= old_views.push(kv));
                            assert(old_views + (seq![kv] + params_of(piece_seqs.skip(j + 1)))
                                =~= param_views(params@) + params_of(piece_seqs.skip(j + 1)));
                        }
                    },
                }
                j = j + 1;
            }
            proof {
                assert(piece_seqs.skip(piece_seqs.len() as int) =~= Seq::<Seq<char>>::empty());
                assert(param_views(params@) + Seq::<(Seq<char>, Seq<char>)>::empty()
                    =~= param_views(params@));
                assert(route@ =~= route_chars(path@));
            }
            (chars_to_string(&route), params)
        },
    }
}

/// A plain-text `200 OK` response around `body`, with its byte length as
/// the content length.
pub fn format_response(body: String) -> (r: String)
    ensures
        r@ == "HTTP/1.1 200 OK\r\nContent-Length: "@ + dec_digits(byte_len(body@) as nat)
            + "\r\n\r\n"@ + body@,
{
    let blen = body.as_str().len();
    proof {
        reveal(crate::bit_cask::byte_len);
    }
    let mut out = str_to_chars("HTTP/1.1 200 OK\r\nContent-Length: ");
    push_dec_u64(&mut out, blen as u64);
    let mut sepc = str_to_chars("\r\n\r\n");
    let mut j: usize = 0;
    let ghost mid = out@;
    while j < sepc.len()
        invariant
            j <= sepc@.len(),
            sepc@ == "\r\n\r\n"@,
            out@ =~= mid + sepc@.take(j as int),
        decreases sepc@.len() - j,
    {
        let c = sepc[j];
        out.push(c);
        proof {
            assert(sepc@.take(j + 1) =~= sepc@.take(j as int).push(c));
        }
        j = j + 1;
    }
    let mut bodyc = str_to_chars(body.as_str());
    let mut j: usize = 0;
    let ghost mid2 = out@;
    while j < bodyc.len()
        invariant
            j <= bodyc@.len(),
            bodyc@ == body@,
            out@ =~= mid2 + bodyc@.take(j as int),
        decreases bodyc@.len() - j,
    {
        let c = bodyc[j];
        out.push(c);
        proof {
            assert(bodyc@.take(j + 1) =~= bodyc@.take(j as int).push(c));
        }
        j = j + 1;
    }
    proof {
        assert(sepc@.take(sepc@.len() as int) =~= sepc@);
        assert(bodyc@.take(bodyc@.len() as int) =~= bodyc@);
        assert(out@ =~= "HTTP/1.1 200 OK\r\nContent-Length: "@ + dec_digits(
            byte_len(body@) as nat,
        ) + "\r\n\r\n"@ + body@);
    }
    chars_to_string(&out)
}

/// The usage text served for a request that matches no route.
pub fn default_response() -> (r: String)
    ensures
        r@ == "HTTP/1.1 200 OK\r\nContent-Length: "@ + dec_digits(
            byte_len(usage_text()) as nat,
        ) + "\r\n\r\n"@ + usage_text(),
{
    let body = usage_string();
    format_response(body)
}

/// The usage text's characters.
pub open spec fn usage_text() -> Seq<char> {
    "Usage:\nREAD: curl --location 'http://localhost:4000?key=1'\nREAD KEY RANGE: curl --location 'http://localhost:4000?start_key=1&end_key=10'\nPUT: curl --location 'http://localhost:4000/' --header 'Content-Type: text/plain' --data 'key:1,value:2000'\nBATCH PUT: curl --location 'http://localhost:4000' --header 'Content-Type: text/plain' --data 'key:1,value:2000\nkey:2,value:5000\nkey:5,value:4000\nkey:11,value:502'\nDELETE: curl --location --request DELETE 'http://localhost:4000?key=1'\n"@
}

/// The usage text.
fn usage_string() -> (r: String)
    ensures
        r@ == usage_text(),
{
    let s = str_to_chars(
        "Usage:\nREAD: curl --location 'http://localhost:4000?key=1'\nREAD KEY RANGE: curl --location 'http://localhost:4000?start_key=1&end_key=10'\nPUT: curl --location 'http://localhost:4000/' --header 'Content-Type: text/plain' --data 'key:1,value:2000'\nBATCH PUT: curl --location 'http://localhost:4000' --header 'Content-Type: text/plain' --data 'key:1,value:2000\nkey:2,value:5000\nkey:5,value:4000\nkey:11,value:502'\nDELETE: curl --location --request DELETE 'http://localhost:4000?key=1'\n",
    );
    chars_to_string(&s)
}

/// What one body line yields: its first two comma-separated fields as a
/// key and a value, nothing when it has no comma, or no pair at all when
/// the key is no number.
pub open spec fn parse_kv_line(l: Seq<char>) -> Option<Option<(usize, Seq<char>)>> {
    let p = split_at(l, ',');
    if p.len() < 2 {
        Some(None)
    } else {
        let ks = p[0];
        if ks.len() >= 1 && all_digits(ks) && dec_val(ks) <= usize::MAX {
            Some(Some(((dec_val(ks) as usize), p[1])))
        } else {
            None
        }
    }
}

/// What a whole body yields: the pairs of its lines in order, skipping
/// lines without a comma; nothing when a key is no number.
pub open spec fn parse_kv_lines(ls: Seq<Seq<char>>) -> Option<Seq<(usize, Seq<char>)>>
    decreases ls.len(),
{
    if ls.len() == 0 {
        Some(Seq::empty())
    } else {
        match parse_kv_line(ls[0]) {
            None => None,
            Some(None) => parse_kv_lines(ls.drop_first()),
            Some(Some(kv)) => match parse_kv_lines(ls.drop_first()) {
                None => None,
                Some(rest) => Some(seq![kv] + rest),
            },
        }
    }
}

/// Parses a request body of `key,value` lines into pairs.  A line without
/// a comma is skipped; a key that is no number is `InvalidInput`.
pub fn parse_kv_body(body: &str) -> (r: Result<Vec<KV>, KvError>)
    ensures
        match r {
            Ok(kvs) => parse_kv_lines(split_at(body@, '\n')) == Some(
                crate::command::kv_views(kvs@),
            ),
            Err(e) => parse_kv_lines(split_at(body@, '\n')) is None && e
                == KvError::InvalidInput,
        },
{
    let chars = str_to_chars(body);
    let lines = split_chars(&chars, '\n');
    let ghost line_seqs = split_at(body@, '\n');
    let mut kvs: Vec<KV> = Vec::new();
    let mut i: usize = 0;
    proof {
        assert(line_seqs.skip(0) =~= line_seqs);
        assert(crate::command::kv_views(kvs@) =~= Seq::<(usize, Seq<char>)>::empty());
        if parse_kv_lines(line_seqs) is Some {
            assert(crate::command::kv_views(kvs@) + parse_kv_lines(line_seqs)->0
                =~= parse_kv_lines(line_seqs)->0);
        }
    }
    while i < lines.len()
        invariant
            i <= lines@.len(),
            line_seqs == split_at(body@, '\n'),
            lines.deep_view() =~= line_seqs,
            parse_kv_lines(line_seqs.skip(i as int)) is Some ==> parse_kv_lines(line_seqs)
                == Some(
                crate::command::kv_views(kvs@) + parse_kv_lines(line_seqs.skip(i as int))->0,
            ),
            parse_kv_lines(line_seqs.skip(i as int)) is None ==> parse_kv_lines(line_seqs)
                is None,
        decreases lines@.len() - i,
    {
        proof {
            assert(lines.deep_view()[i as int] == lines@[i as int]@);
            assert(line_seqs.skip(i as int)[0] == line_seqs[i as int]);
            assert(line_seqs.skip(i as int).drop_first() =~= line_seqs.skip(i + 1));
        }
        let line = &lines[i];
        let fields = split_chars(line, ',');
        if fields.len() >= 2 {
            proof {
                assert(fields.deep_view()[0] == fields@[0]@);
                assert(fields.deep_view()[1] == fields@[1]@);
            }
            let ks = &fields[0];
            proof {
                assert(ks@.subrange(0, ks@.len() as int) =~= ks@);
            }
            match parse_dec_u64(ks, 0, ks.len()) {
                None => {
                    proof {
                        assert(parse_kv_line(line_seqs[i as int]) is None);
                        assert(parse_kv_lines(line_seqs.skip(i as int)) is None);
                    }
                    return Err(KvError::InvalidInput);
                },
                Some(k64) => {
                    if k64 > usize::MAX as u64 {
                        proof {
                            assert(parse_kv_line(line_seqs[i as int]) is None);
                            assert(parse_kv_lines(line_seqs.skip(i as int)) is None);
                        }
                        return Err(KvError::InvalidInput);
                    }
                    let ghost old_views = crate::command::kv_views(kvs@);
                    let value = chars_to_string(&fields[1]);
                    kvs.push(KV { key: k64 as usize, value });
                    proof {
                        assert(parse_kv_line(line_seqs[i as int]) == Some(
                            Some(((k64 as usize), fields@[1]@)),
                        ));
                        assert(crate::command::kv_views(kvs@) =~= old_views.push(
                            ((k64 as usize), fields@[1]@),
                        ));
                        if parse_kv_lines(line_seqs.skip(i + 1)) is Some {
                            let rest = parse_kv_lines(line_seqs.skip(i + 1))->0;
                            assert(parse_kv_lines(line_seqs.skip(i as int)) == Some(
                                seq![((k64 as usize), fields@[1]@)] + rest,
                            ));
                            assert(old_views + (seq![((k64 as usize), fields@[1]@)] + rest)
                                =~= crate::command::kv_views(kvs@) + rest);
                        }
                    }
                },
            }
        } else {
            proof {
                assert(parse_kv_line(line_seqs[i as int]) == Some(
                    None::<(usize, Seq<char>)>,
                ));
            }
        }
        i = i + 1;
    }
    proof {
        assert(line_seqs.skip(line_seqs.len() as int) =~= Seq::<Seq<char>>::empty());
        assert(crate::command::kv_views(kvs@) + Seq::<(usize, Seq<char>)>::empty()
            =~= crate::command::kv_views(kvs@));
    }
    Ok(kvs)
}

} // verus!
