//! Replicated log entries and the textual command codec.
//!
//! A replicated entry carries a term, a command string and its index.  The
//! command string uses the grammar `CMD:PAYLOAD` with `CMD` one of `PUT`,
//! `DELETE` and `BATCH PUT`; the payload is `key.value` pairs joined by `;`,
//! or a bare key for `DELETE`.  Values must not contain the delimiter
//! characters `:`, `;`, `.`, `|`, `,`, `+`; under that condition the codec
//! round-trips.

use vstd::prelude::*;
use crate::error::KvError;
use crate::storage::KV;
use crate::text::{all_digits, dec_digits, dec_val, join_with, lemma_dec_roundtrip,
    lemma_split_join, parse_dec_u64, push_dec_u64, push_joined, split_at, split_chars,
    str_to_chars, chars_to_string, eq_chars};

verus! {

/// One replicated log entry.
#[derive(Clone, Debug)]
pub struct LogEntry {
    pub term: u64,
    pub entry: String,
    pub entry_idx: u64,
}

impl LogEntry {
    /// A field-for-field copy.
    pub fn dup(&self) -> (r: LogEntry)
        ensures
            r == *self,
    {
        LogEntry { term: self.term, entry: self.entry.clone(), entry_idx: self.entry_idx }
    }
}

/// The view of a list of pairs: each key with its value's characters.
pub open spec fn kv_views(kvs: Seq<KV>) -> Seq<(usize, Seq<char>)> {
    Seq::new(kvs.len(), |i: int| (kvs[i].key, kvs[i].value@))
}

/// The text of one `key.value` pair.
pub open spec fn pair_chars(k: usize, v: Seq<char>) -> Seq<char> {
    dec_digits(k as nat) + seq!['.'] + v
}

/// The texts of a list of pairs.
pub open spec fn pairs_chars(kvs: Seq<(usize, Seq<char>)>) -> Seq<Seq<char>> {
    Seq::new(kvs.len(), |i: int| pair_chars(kvs[i].0, kvs[i].1))
}

/// The text of a command: `DELETE:key`, or `CMD:` followed by the pairs
/// joined with `;`.
pub open spec fn format_command_chars(cmd: Seq<char>, kvs: Seq<(usize, Seq<char>)>) -> Seq<char> {
    if cmd == "DELETE"@ {
        cmd + seq![':'] + dec_digits(kvs[0].0 as nat)
    } else {
        cmd + seq![':'] + join_with(pairs_chars(kvs), ';')
    }
}

/// What parsing one `key.value` pair yields: the key's number and the text
/// between the first and second dot, or nothing when there is no dot or no
/// valid key.
pub open spec fn parse_pair_chars(p: Seq<char>) -> Option<(usize, Seq<char>)> {
    let sub = split_at(p, '.');
    if sub.len() < 2 {
        None
    } else {
        let ks = sub[0];
        if ks.len() >= 1 && all_digits(ks) && dec_val(ks) <= usize::MAX {
            Some(((dec_val(ks) as usize), sub[1]))
        } else {
            None
        }
    }
}

/// What parsing a list of pair texts yields: every pair, or nothing when
/// one of them is malformed.
pub open spec fn parse_pairs_chars(ps: Seq<Seq<char>>) -> Option<Seq<(usize, Seq<char>)>>
    decreases ps.len(),
{
    if ps.len() == 0 {
        Some(Seq::empty())
    } else {
        match parse_pair_chars(ps[0]) {
            None => None,
            Some(kv) => match parse_pairs_chars(ps.drop_first()) {
                None => None,
                Some(rest) => Some(seq![kv] + rest),
            },
        }
    }
}

/// What parsing a command text yields: the command word and its pairs
/// (`DELETE` carries its key with an empty value), or nothing when the text
/// is malformed.
pub open spec fn parse_command_chars(s: Seq<char>) -> Option<
    (Seq<char>, Seq<(usize, Seq<char>)>),
> {
    let parts = split_at(s, ':');
    if parts.len() < 2 {
        None
    } else {
        let c = parts[0];
        let vals = parts[1];
        if c == "DELETE"@ {
            if vals.len() >= 1 && all_digits(vals) && dec_val(vals) <= usize::MAX {
                Some((c, seq![((dec_val(vals) as usize), Seq::<char>::empty())]))
            } else {
                None
            }
        } else {
            match parse_pairs_chars(split_at(vals, ';')) {
                None => None,
                Some(kvs) => Some((c, kvs)),
            }
        }
    }
}

/// Whether a value may stand in a command: none of the delimiter
/// characters of the grammar occur in it.
pub open spec fn value_ok(v: Seq<char>) -> bool {
    forall|j: int|
        0 <= j < v.len() ==> (#[trigger] v[j]) != ':' && v[j] != ';' && v[j] != '.' && v[j] != '|'
            && v[j] != ',' && v[j] != '+'
}

/// A join contains only the separator and its parts' characters: when none
/// of them is `bad`, neither is any character of the join.
proof fn lemma_join_free(parts: Seq<Seq<char>>, sep: char, bad: char)
    requires
        sep != bad,
        forall|i: int, j: int|
            0 <= i < parts.len() && 0 <= j < parts[i].len() ==> (#[trigger] parts[i][j]) != bad,
    ensures
        forall|j: int| 0 <= j < join_with(parts, sep).len() ==> (#[trigger] join_with(
            parts,
            sep,
        )[j]) != bad,
    decreases parts.len(),
{
    if parts.len() > 1 {
        let rest = parts.drop_first();
        assert(forall|i: int, j: int|
            0 <= i < rest.len() && 0 <= j < rest[i].len() ==> rest[i] == parts[i + 1] && (
            #[trigger] rest[i][j]) != bad);
        lemma_join_free(rest, sep, bad);
        let s = parts[0] + seq![sep] + join_with(rest, sep);
        assert forall|j: int| 0 <= j < s.len() implies (#[trigger] s[j]) != bad by {
            if j < parts[0].len() {
                assert(s[j] == parts[0][j]);
            } else if j == parts[0].len() {
                assert(s[j] == sep);
            } else {
                assert(s[j] == join_with(rest, sep)[j - parts[0].len() - 1]);
            }
        }
    }
}

/// Parsing the texts of pairs yields the pairs again, provided no value
/// contains a delimiter.
proof fn lemma_parse_pairs_roundtrip(kvs: Seq<(usize, Seq<char>)>)
    requires
        forall|i: int| 0 <= i < kvs.len() ==> value_ok((#[trigger] kvs[i]).1),
    ensures
        parse_pairs_chars(pairs_chars(kvs)) == Some(kvs),
    decreases kvs.len(),
{
    if kvs.len() == 0 {
        assert(pairs_chars(kvs) =~= Seq::<Seq<char>>::empty());
        assert(kvs =~= Seq::<(usize, Seq<char>)>::empty());
    } else {
        let (k, v) = (kvs[0].0, kvs[0].1);
        let p = pair_chars(k, v);
        lemma_dec_roundtrip(k as nat);
        assert(forall|j: int|
            0 <= j < dec_digits(k as nat).len() ==> (#[trigger] dec_digits(k as nat)[j]) != '.');
        lemma_split_join(seq![dec_digits(k as nat), v], '.');
        assert(join_with(seq![dec_digits(k as nat), v], '.') =~= p) by {
            assert(seq![dec_digits(k as nat), v].drop_first() =~= seq![v]);
            assert(join_with(seq![v], '.') == v);
        }
        assert(split_at(p, '.') =~= seq![dec_digits(k as nat), v]);
        assert(parse_pair_chars(p) == Some((k, v)));
        let rest = kvs.drop_first();
        assert(forall|i: int|
            0 <= i < rest.len() ==> rest[i] == kvs[i + 1] && value_ok((#[trigger] rest[i]).1));
        lemma_parse_pairs_roundtrip(rest);
        assert(pairs_chars(kvs)[0] == p);
        assert(pairs_chars(kvs).drop_first() =~= pairs_chars(rest));
        assert(seq![(k, v)] + rest =~= kvs);
    }
}

/// The command codec round-trips: parsing the text of any `PUT`, `DELETE`
/// or `BATCH PUT` command whose values are free of the delimiter
/// characters yields the command again.
pub proof fn lemma_command_roundtrip(cmd: Seq<char>, kvs: Seq<(usize, Seq<char>)>)
    requires
        cmd == "PUT"@ || cmd == "DELETE"@ || cmd == "BATCH PUT"@,
        kvs.len() >= 1,
        cmd == "DELETE"@ ==> kvs.len() == 1 && kvs[0].1 == Seq::<char>::empty(),
        forall|i: int| 0 <= i < kvs.len() ==> value_ok((#[trigger] kvs[i]).1),
    ensures
        parse_command_chars(format_command_chars(cmd, kvs)) == Some((cmd, kvs)),
{
    reveal_strlit("PUT");
    reveal_strlit("DELETE");
    reveal_strlit("BATCH PUT");
    assert(forall|j: int| 0 <= j < cmd.len() ==> (#[trigger] cmd[j]) != ':');
    if cmd == "DELETE"@ {
        let k = kvs[0].0;
        let d = dec_digits(k as nat);
        lemma_dec_roundtrip(k as nat);
        assert(forall|j: int| 0 <= j < d.len() ==> (#[trigger] d[j]) != ':');
        lemma_split_join(seq![cmd, d], ':');
        assert(join_with(seq![cmd, d], ':') =~= cmd + seq![':'] + d) by {
            assert(seq![cmd, d].drop_first() =~= seq![d]);
            assert(join_with(seq![d], ':') == d);
        }
        assert(split_at(format_command_chars(cmd, kvs), ':') =~= seq![cmd, d]);
        assert(seq![(k, Seq::<char>::empty())] =~= kvs);
    } else {
        let ps = pairs_chars(kvs);
        assert(forall|i: int, j: int|
            0 <= i < ps.len() && 0 <= j < ps[i].len() ==> (#[trigger] ps[i][j]) != ':' && ps[i][j]
                != ';') by {
            assert forall|i: int, j: int|
                0 <= i < ps.len() && 0 <= j < ps[i].len() implies (#[trigger] ps[i][j]) != ':'
                && ps[i][j] != ';' by {
                let p = ps[i];
                let d = dec_digits(kvs[i].0 as nat);
                lemma_dec_roundtrip(kvs[i].0 as nat);
                if j < d.len() {
                    assert(p[j] == d[j]);
                } else if j == d.len() {
                    assert(p[j] == '.');
                } else {
                    assert(p[j] == kvs[i].1[j - d.len() - 1]);
                }
            }
        }
        let rest = join_with(ps, ';');
        lemma_join_free(ps, ';', ':');
        lemma_split_join(seq![cmd, rest], ':');
        assert(join_with(seq![cmd, rest], ':') =~= cmd + seq![':'] + rest) by {
            assert(seq![cmd, rest].drop_first() =~= seq![rest]);
            assert(join_with(seq![rest], ':') == rest);
        }
        assert(split_at(format_command_chars(cmd, kvs), ':') =~= seq![cmd, rest]);
        assert(cmd != "DELETE"@) by {
            if cmd == "PUT"@ {
                assert(cmd.len() == 3);
            } else {
                assert(cmd.len() == 9);
            }
        }
        lemma_split_join(ps, ';');
        lemma_parse_pairs_roundtrip(kvs);
    }
}

impl LogEntry {
    /// The text of command `cmd` over `values`: `DELETE:key` for a
    /// deletion, else the `key.value` pairs joined with `;` after the
    /// command word.
    pub fn format_command(&self, cmd: &str, values: Vec<KV>) -> (r: String)
        requires
            cmd@ == "DELETE"@ ==> values@.len() >= 1,
        ensures
            r@ == format_command_chars(cmd@, kv_views(values@)),
    {
        let cmd_chars = str_to_chars(cmd);
        let delete_chars = str_to_chars("DELETE");
        let mut out = str_to_chars(cmd);
        out.push(':');
        if eq_chars(&cmd_chars, &delete_chars) {
            proof {
                assert(cmd@ == "DELETE"@);
            }
            push_dec_u64(&mut out, values[0].key as u64);
            proof {
                assert(out@ =~= format_command_chars(cmd@, kv_views(values@)));
            }
        } else {
            proof {
                assert(cmd@ != "DELETE"@);
            }
            let ghost views = kv_views(values@);
            let mut parts: Vec<Vec<char>> = Vec::new();
            let mut i: usize = 0;
            while i < values.len()
                invariant
                    i <= values@.len(),
                    views == kv_views(values@),
                    parts.deep_view() =~= pairs_chars(views).take(i as int),
                decreases values@.len() - i,
            {
                let mut part: Vec<char> = Vec::new();
                push_dec_u64(&mut part, values[i].key as u64);
                part.push('.');
                let mut vc = str_to_chars(values[i].value.as_str());
                let mut j: usize = 0;
                while j < vc.len()
                    invariant
                        j <= vc@.len(),
                        vc@ == values@[i as int].value@,
                        i < values@.len(),
                        part@ =~= dec_digits(values@[i as int].key as nat) + seq!['.'] + vc@.take(
                            j as int,
                        ),
                    decreases vc@.len() - j,
                {
                    let c = vc[j];
                    part.push(c);
                    proof {
                        assert(vc@.take(j + 1) =~= vc@.take(j as int).push(c));
                    }
                    j = j + 1;
                }
                proof {
                    assert(vc@.take(vc@.len() as int) =~= vc@);
                    assert(part@ =~= pair_chars(views[i as int].0, views[i as int].1));
                }
                let ghost old_dv = parts.deep_view();
                parts.push(part);
                proof {
                    assert(parts.deep_view() =~~= old_dv.push(part@));
                    assert(pairs_chars(views).take(i + 1) =~= pairs_chars(views).take(
                        i as int,
                    ).push(pairs_chars(views)[i as int]));
                }
                i = i + 1;
            }
            proof {
                assert(pairs_chars(views).take(views.len() as int) =~= pairs_chars(views));
            }
            if parts.len() > 0 {
                push_joined(&mut out, &parts, ';');
                proof {
                    assert(out@ =~= format_command_chars(cmd@, views));
                }
            } else {
                proof {
                    assert(pairs_chars(views).len() == 0);
                    assert(join_with(pairs_chars(views), ';') =~= Seq::<char>::empty());
                    assert(out@ =~= format_command_chars(cmd@, views));
                }
            }
        }
        chars_to_string(&out)
    }

    /// Parses a command text back into its command word and pairs.
    /// `InvalidInput` exactly when the text has no `:`, a `DELETE` key is
    /// not a number, or a pair lacks a `.` or a valid key.
    pub fn parse_command(&self, cmd: &str) -> (r: Result<(String, Vec<KV>), KvError>)
        ensures
            match r {
                Ok((c, kvs)) => parse_command_chars(cmd@) == Some((c@, kv_views(kvs@))),
                Err(e) => parse_command_chars(cmd@) is None && e == KvError::InvalidInput,
            },
    {
        let chars = str_to_chars(cmd);
        let parts = split_chars(&chars, ':');
        if parts.len() < 2 {
            return Err(KvError::InvalidInput);
        }
        proof {
            assert(parts.deep_view()[0] == parts@[0]@);
            assert(parts.deep_view()[1] == parts@[1]@);
        }
        let delete_chars = str_to_chars("DELETE");
        let command = &parts[0];
        let vals = &parts[1];
        if eq_chars(command, &delete_chars) {
            proof {
                assert(parts.deep_view()[0] == "DELETE"@);
            }
            match parse_dec_u64(vals, 0, vals.len()) {
                None => {
                    proof {
                        assert(vals@.subrange(0, vals@.len() as int) =~= vals@);
                        assert(!(vals@.len() >= 1 && all_digits(vals@) && dec_val(vals@)
                            <= u64::MAX));
                    }
                    return Err(KvError::InvalidInput);
                },
                Some(k64) => {
                    proof {
                        assert(vals@.subrange(0, vals@.len() as int) =~= vals@);
                    }
                    if k64 > usize::MAX as u64 {
                        return Err(KvError::InvalidInput);
                    }
                    let kv = KV { key: k64 as usize, value: String::new() };
                    let mut kvs: Vec<KV> = Vec::new();
                    kvs.push(kv);
                    proof {
                        assert(kv_views(kvs@) =~= seq![
                            ((dec_val(vals@) as usize), Seq::<char>::empty()),
                        ]);
                    }
                    return Ok((chars_to_string(command), kvs));
                },
            }
        }
        proof {
            assert(parts.deep_view()[0] != "DELETE"@);
        }
        let pair_texts = split_chars(vals, ';');
        let ghost pair_seqs = split_at(vals@, ';');
        let mut kvs: Vec<KV> = Vec::new();
        let mut i: usize = 0;
        proof {
            assert(pair_seqs.skip(0) =~= pair_seqs);
            assert(kv_views(kvs@) =~= Seq::<(usize, Seq<char>)>::empty());
            if parse_pairs_chars(pair_seqs) is Some {
                assert(kv_views(kvs@) + parse_pairs_chars(pair_seqs)->0 =~= parse_pairs_chars(
                    pair_seqs,
                )->0);
            }
        }
        while i < pair_texts.len()
            invariant
                i <= pair_texts@.len(),
                chars@ == cmd@,
                split_at(cmd@, ':').len() >= 2,
                split_at(cmd@, ':')[0] != "DELETE"@,
                pair_seqs == split_at(split_at(cmd@, ':')[1], ';'),
                pair_texts.deep_view() =~= pair_seqs,
                parse_pairs_chars(pair_seqs.skip(i as int)) is Some ==> parse_pairs_chars(
                    pair_seqs,
                ) == Some(kv_views(kvs@) + parse_pairs_chars(pair_seqs.skip(i as int))->0),
                parse_pairs_chars(pair_seqs.skip(i as int)) is None ==> parse_pairs_chars(
                    pair_seqs,
                ) is None,
            decreases pair_texts@.len() - i,
        {
            let p = &pair_texts[i];
            proof {
                assert(p@ == pair_seqs[i as int]);
                assert(pair_seqs.skip(i as int)[0] == pair_seqs[i as int]);
                assert(pair_seqs.skip(i as int).drop_first() =~= pair_seqs.skip(i + 1));
            }
            let sub = split_chars(p, '.');
            if sub.len() < 2 {
                proof {
                    assert(parse_pair_chars(pair_seqs[i as int]) is None);
                    assert(parse_pairs_chars(pair_seqs.skip(i as int)) is None);
                    assert(parse_command_chars(cmd@) is None);
                }
                return Err(KvError::InvalidInput);
            }
            proof {
                assert(sub.deep_view()[0] == sub@[0]@);
                assert(sub.deep_view()[1] == sub@[1]@);
            }
            let ks = &sub[0];
            match parse_dec_u64(ks, 0, ks.len()) {
                None => {
                    proof {
                        assert(ks@.subrange(0, ks@.len() as int) =~= ks@);
                        assert(parse_pair_chars(pair_seqs[i as int]) is None);
                        assert(parse_pairs_chars(pair_seqs.skip(i as int)) is None);
                        assert(parse_command_chars(cmd@) is None);
                    }
                    return Err(KvError::InvalidInput);
                },
                Some(k64) => {
                    proof {
                        assert(ks@.subrange(0, ks@.len() as int) =~= ks@);
                    }
                    if k64 > usize::MAX as u64 {
                        proof {
                            assert(parse_pair_chars(pair_seqs[i as int]) is None);
                            assert(parse_pairs_chars(pair_seqs.skip(i as int)) is None);
                            assert(parse_command_chars(cmd@) is None);
                        }
                        return Err(KvError::InvalidInput);
                    }
                    let ghost old_views = kv_views(kvs@);
                    let val = chars_to_string(&sub[1]);
                    kvs.push(KV { key: k64 as usize, value: val });
                    proof {
                        assert(parse_pair_chars(pair_seqs[i as int]) == Some(
                            ((k64 as usize), sub@[1]@),
                        ));
                        assert(kv_views(kvs@) =~= old_views.push(((k64 as usize), sub@[1]@)));
                        if parse_pairs_chars(pair_seqs.skip(i + 1)) is Some {
                            let rest = parse_pairs_chars(pair_seqs.skip(i + 1))->0;
                            assert(parse_pairs_chars(pair_seqs.skip(i as int)) == Some(
                                seq![((k64 as usize), sub@[1]@)] + rest,
                            ));
                            assert(old_views + (seq![((k64 as usize), sub@[1]@)] + rest)
                                =~= kv_views(kvs@) + rest);
                        }
                    }
                },
            }
            i = i + 1;
        }
        proof {
            assert(pair_seqs.skip(pair_seqs.len() as int) =~= Seq::<Seq<char>>::empty());
            assert(kv_views(kvs@) + Seq::<(usize, Seq<char>)>::empty() =~= kv_views(kvs@));
        }
        Ok((chars_to_string(command), kvs))
    }
}

} // verus!
