//! Dockerfile generation for a project's builder variant.
//!
//! Each variant supplies a template; rendering replaces each `{key}`
//! placeholder with the variant's value for that key.  A list-valued field
//! is rendered as its elements joined by single spaces.

use vstd::prelude::*;

use crate::bytes::bytes_eq;
use crate::bytes::clone_bytes;
use crate::config::BuilderConfig;

verus! {

/// Opening placeholder brace.
pub const LBRACE: u8 = 123;

/// Closing placeholder brace.
pub const RBRACE: u8 = 125;

/// Separator used when a list value is substituted.
pub const LIST_SEP: u8 = 32;

/// Why rendering a template failed.
#[derive(Debug, PartialEq, Eq, Structural, Clone, Copy)]
pub enum RenderError {
    /// A `{` with no closing `}` after it.
    UnclosedKey,
    /// A placeholder key the variant has no value for.
    UnknownKey,
}

/// A build produced by the container driver: the tar bytes it emitted and
/// the source fingerprint it was built from.
#[derive(Debug, PartialEq, Eq)]
pub struct BuildResult {
    pub tar_binary: Vec<u8>,
    pub dir_hash: u64,
}

/// The first closing brace at or after `from`.
pub open spec fn first_rbrace(t: Seq<u8>, from: int) -> Option<int>
    decreases t.len() - from,
{
    if from < 0 || from >= t.len() {
        Option::None
    } else if t[from] == RBRACE {
        Option::Some(from)
    } else {
        first_rbrace(t, from + 1)
    }
}

/// The value recorded for `key`, first match wins.
pub open spec fn lookup_value(vals: Seq<(Seq<u8>, Seq<u8>)>, key: Seq<u8>) -> Option<Seq<u8>>
    decreases vals.len(),
{
    if vals.len() == 0 {
        Option::None
    } else if vals.first().0 == key {
        Option::Some(vals.first().1)
    } else {
        lookup_value(vals.drop_first(), key)
    }
}

/// Rendering from position `pos` on: literal bytes copied, each
/// `{key}` replaced by its value.
pub open spec fn render_at(
    t: Seq<u8>,
    vals: Seq<(Seq<u8>, Seq<u8>)>,
    pos: int,
) -> Result<Seq<u8>, RenderError>
    decreases t.len() - pos,
{
    if pos < 0 || pos >= t.len() {
        Result::Ok(Seq::<u8>::empty())
    } else if t[pos] == LBRACE {
        match first_rbrace(t, pos + 1) {
            Option::None => Result::Err(RenderError::UnclosedKey),
            Option::Some(j) => if pos < j < t.len() {
                match lookup_value(vals, t.subrange(pos + 1, j)) {
                    Option::None => Result::Err(RenderError::UnknownKey),
                    Option::Some(v) => match render_at(t, vals, j + 1) {
                        Result::Err(e) => Result::Err(e),
                        Result::Ok(rest) => Result::Ok(v + rest),
                    },
                }
            } else {
                Result::Err(RenderError::UnclosedKey)
            },
        }
    } else {
        match render_at(t, vals, pos + 1) {
            Result::Err(e) => Result::Err(e),
            Result::Ok(r) => Result::Ok(seq![t[pos]] + r),
        }
    }
}

/// The rendering of a whole template.
pub open spec fn render_spec(t: Seq<u8>, vals: Seq<(Seq<u8>, Seq<u8>)>) -> Result<
    Seq<u8>,
    RenderError,
> {
    render_at(t, vals, 0)
}

/// Where `first_rbrace` points, and that nothing closes earlier.
proof fn lemma_first_rbrace(t: Seq<u8>, from: int)
    requires
        0 <= from,
    ensures
        match first_rbrace(t, from) {
            Option::Some(j) => from <= j < t.len() && t[j] == RBRACE && forall|m: int|
                from <= m < j ==> t[m] != RBRACE,
            Option::None => forall|m: int| from <= m < t.len() ==> t[m] != RBRACE,
        },
    decreases t.len() - from,
{
    if from < t.len() && t[from] != RBRACE {
        lemma_first_rbrace(t, from + 1);
    }
}

/// The views of a list of key-value pairs.
pub open spec fn pair_views(s: Seq<(Vec<u8>, Vec<u8>)>) -> Seq<(Seq<u8>, Seq<u8>)> {
    s.map_values(|p: (Vec<u8>, Vec<u8>)| (p.0@, p.1@))
}

/// Find the closing brace at or after `from`.
fn find_rbrace(t: &[u8], from: usize) -> (r: Option<usize>)
    ensures
        match r {
            Option::Some(j) => first_rbrace(t@, from as int) == Option::Some(j as int) && from <= j
                < t@.len(),
            Option::None => first_rbrace(t@, from as int) is None,
        },
{
    let mut k: usize = from;
    while k < t.len()
        invariant
            from <= k,
            first_rbrace(t@, from as int) == first_rbrace(t@, k as int),
        decreases t@.len() - k,
    {
        if t[k] == RBRACE {
            proof {
                lemma_first_rbrace(t@, k as int);
            }
            return Option::Some(k);
        }
        k += 1;
    }
    Option::None
}

/// Look up `key` in the pair list, first match wins.
fn lookup_pair(vals: &Vec<(Vec<u8>, Vec<u8>)>, key: &[u8]) -> (r: Option<usize>)
    ensures
        match r {
            Option::Some(i) => i < vals@.len() && lookup_value(pair_views(vals@), key@)
                == Option::Some(vals@[i as int].1@),
            Option::None => lookup_value(pair_views(vals@), key@) is None,
        },
{
    let ghost vs = pair_views(vals@);
    let mut i: usize = 0;
    proof {
        assert(vs.skip(0) =~= vs);
    }
    while i < vals.len()
        invariant
            0 <= i <= vals@.len(),
            vs == pair_views(vals@),
            lookup_value(vs, key@) == lookup_value(vs.skip(i as int), key@),
        decreases vals@.len() - i,
    {
        proof {
            assert(vs[i as int] == (vals@[i as int].0@, vals@[i as int].1@));
            assert(vs.skip(i as int).first() == vs[i as int]);
            assert(vs.skip(i as int).drop_first() =~= vs.skip(i + 1));
        }
        if bytes_eq(vals[i].0.as_slice(), key) {
            return Option::Some(i);
        }
        i += 1;
    }
    proof {
        assert(vs.skip(vals@.len() as int).len() == 0);
    }
    Option::None
}

/// Render a template against a key-value list.
pub fn render_template(template: &[u8], values: &Vec<(Vec<u8>, Vec<u8>)>) -> (r: Result<
    Vec<u8>,
    RenderError,
>)
    ensures
        match r {
            Result::Ok(v) => render_spec(template@, pair_views(values@)) == Result::Ok::<
                Seq<u8>,
                RenderError,
            >(v@),
            Result::Err(e) => render_spec(template@, pair_views(values@)) == Result::Err::<
                Seq<u8>,
                RenderError,
            >(e),
        },
{
    let ghost vs = pair_views(values@);
    let mut out: Vec<u8> = Vec::new();
    let mut pos: usize = 0;
    proof {
        assert(out@ =~= Seq::<u8>::empty());
    }
    while pos < template.len()
        invariant
            0 <= pos <= template@.len(),
            vs == pair_views(values@),
            (match render_at(template@, vs, pos as int) {
                Result::Ok(rest) => render_at(template@, vs, 0) == Result::Ok::<
                    Seq<u8>,
                    RenderError,
                >(out@ + rest),
                Result::Err(e) => render_at(template@, vs, 0) == Result::Err::<
                    Seq<u8>,
                    RenderError,
                >(e),
            }),
        decreases template@.len() - pos,
    {
        let ghost out0 = out@;
        if template[pos] == LBRACE {
            match find_rbrace(template, pos + 1) {
                Option::None => {
                    return Result::Err(RenderError::UnclosedKey);
                },
                Option::Some(j) => {
                    let key = crate::codec::copy_range(template, pos + 1, j);
                    match lookup_pair(values, key.as_slice()) {
                        Option::None => {
                            return Result::Err(RenderError::UnknownKey);
                        },
                        Option::Some(vi) => {
                            let ghost v = values@[vi as int].1@;
                            crate::codec::append_bytes(&mut out, values[vi].1.as_slice());
                            proof {
                                if render_at(template@, vs, j + 1) is Ok {
                                    let rest = render_at(template@, vs, j + 1)->Ok_0;
                                    assert(out0 + (v + rest) =~= (out0 + v) + rest);
                                }
                            }
                            pos = j + 1;
                        },
                    }
                },
            }
        } else {
            out.push(template[pos]);
            proof {
                if render_at(template@, vs, pos + 1) is Ok {
                    let rest = render_at(template@, vs, pos + 1)->Ok_0;
                    assert(out0 + (seq![template@[pos as int]] + rest) =~= out0.push(
                        template@[pos as int],
                    ) + rest);
                }
            }
            pos = pos + 1;
        }
    }
    proof {
        assert(out@ + Seq::<u8>::empty() =~= out@);
    }
    Result::Ok(out)
}

/// Elements joined by a separator byte.
pub open spec fn join_with(parts: Seq<Seq<u8>>, sep: u8) -> Seq<u8>
    decreases parts.len(),
{
    if parts.len() == 0 {
        Seq::<u8>::empty()
    } else if parts.len() == 1 {
        parts.first()
    } else {
        parts.first() + seq![sep] + join_with(parts.drop_first(), sep)
    }
}

/// Joining one more element appends a separator and the element.
proof fn lemma_join_push(parts: Seq<Seq<u8>>, sep: u8, x: Seq<u8>)
    requires
        parts.len() >= 1,
    ensures
        join_with(parts.push(x), sep) == join_with(parts, sep) + seq![sep] + x,
    decreases parts.len(),
{
    if parts.len() == 1 {
        assert(parts.push(x).drop_first() =~= seq![x]);
        assert(join_with(seq![x], sep) == x);
        assert(join_with(parts.push(x), sep) == parts.first() + seq![sep] + x);
    } else {
        assert(parts.push(x).drop_first() =~= parts.drop_first().push(x));
        lemma_join_push(parts.drop_first(), sep, x);
        assert(parts.first() + seq![sep] + (join_with(parts.drop_first(), sep) + seq![sep] + x)
            =~= (parts.first() + seq![sep] + join_with(parts.drop_first(), sep)) + seq![sep] + x);
    }
}

/// Join byte strings with a separator.
pub fn join_bytes(parts: &Vec<Vec<u8>>, sep: u8) -> (r: Vec<u8>)
    ensures
        r@ == join_with(crate::bytes::byte_views(parts@), sep),
{
    let ghost pv = crate::bytes::byte_views(parts@);
    let mut out: Vec<u8> = Vec::new();
    if parts.len() == 0 {
        proof {
            assert(out@ =~= join_with(pv, sep));
        }
        return out;
    }
    crate::codec::append_bytes(&mut out, parts[0].as_slice());
    proof {
        assert(pv.take(1) =~= seq![pv[0]]);
        assert(Seq::<u8>::empty() + pv[0] =~= pv[0]);
        assert(out@ == join_with(pv.take(1), sep));
    }
    let mut i: usize = 1;
    while i < parts.len()
        invariant
            1 <= i <= parts@.len(),
            pv == crate::bytes::byte_views(parts@),
            out@ == join_with(pv.take(i as int), sep),
        decreases parts@.len() - i,
    {
        out.push(sep);
        crate::codec::append_bytes(&mut out, parts[i].as_slice());
        proof {
            assert(pv.take(i + 1) =~= pv.take(i as int).push(pv[i as int]));
            lemma_join_push(pv.take(i as int), sep, pv[i as int]);
            assert(out@ =~= (join_with(pv.take(i as int), sep) + seq![sep]) + pv[i as int]);
            assert((join_with(pv.take(i as int), sep) + seq![sep]) + pv[i as int] =~= join_with(
                pv.take(i as int),
                sep,
            ) + seq![sep] + pv[i as int]);
        }
        i += 1;
    }
    proof {
        assert(pv.take(pv.len() as int) =~= pv);
    }
    out
}

/// The key `entry_file`.
pub open spec fn key_entry_file() -> Seq<u8> {
    seq![101u8, 110u8, 116u8, 114u8, 121u8, 95u8, 102u8, 105u8, 108u8, 101u8]
}

/// The key `bin_name`.
pub open spec fn key_bin_name() -> Seq<u8> {
    seq![98u8, 105u8, 110u8, 95u8, 110u8, 97u8, 109u8, 101u8]
}

/// The key `targets`.
pub open spec fn key_targets() -> Seq<u8> {
    seq![116u8, 97u8, 114u8, 103u8, 101u8, 116u8, 115u8]
}

/// The key-value pairs a builder variant renders against: its own fields,
/// a list field joined by spaces; a custom variant brings its own map.
pub open spec fn config_pairs(c: BuilderConfig) -> Seq<(Seq<u8>, Seq<u8>)> {
    match c {
        BuilderConfig::PyInstaller(p) => seq![(key_entry_file(), p.entry_file@)],
        BuilderConfig::Rust(r) => seq![
            (key_bin_name(), r.bin_name@),
            (key_targets(), join_with(crate::bytes::byte_views(r.targets@), LIST_SEP)),
        ],
        BuilderConfig::Custom(cu) => pair_views(cu.values@),
    }
}

/// Render the dockerfile for a builder variant from its template.
pub fn generate_dockerfile(template: &[u8], config: &BuilderConfig) -> (r: Result<
    Vec<u8>,
    RenderError,
>)
    ensures
        match r {
            Result::Ok(v) => render_spec(template@, config_pairs(*config)) == Result::Ok::<
                Seq<u8>,
                RenderError,
            >(v@),
            Result::Err(e) => render_spec(template@, config_pairs(*config)) == Result::Err::<
                Seq<u8>,
                RenderError,
            >(e),
        },
{
    let mut vals: Vec<(Vec<u8>, Vec<u8>)> = Vec::new();
    match config {
        BuilderConfig::PyInstaller(p) => {
            let mut key: Vec<u8> = Vec::new();
            key.push(101);
            key.push(110);
            key.push(116);
            key.push(114);
            key.push(121);
            key.push(95);
            key.push(102);
            key.push(105);
            key.push(108);
            key.push(101);
            proof {
                assert(key@ =~= key_entry_file());
            }
            vals.push((key, clone_bytes(&p.entry_file)));
            proof {
                assert(pair_views(vals@) =~= config_pairs(*config));
            }
        },
        BuilderConfig::Rust(rc) => {
            let mut key1: Vec<u8> = Vec::new();
            key1.push(98);
            key1.push(105);
            key1.push(110);
            key1.push(95);
            key1.push(110);
            key1.push(97);
            key1.push(109);
            key1.push(101);
            proof {
                assert(key1@ =~= key_bin_name());
            }
            vals.push((key1, clone_bytes(&rc.bin_name)));
            let mut key2: Vec<u8> = Vec::new();
            key2.push(116);
            key2.push(97);
            key2.push(114);
            key2.push(103);
            key2.push(101);
            key2.push(116);
            key2.push(115);
            proof {
                assert(key2@ =~= key_targets());
            }
            let joined = join_bytes(&rc.targets, LIST_SEP);
            vals.push((key2, joined));
            proof {
                assert(pair_views(vals@) =~= config_pairs(*config));
            }
        },
        BuilderConfig::Custom(cu) => {
            let mut i: usize = 0;
            while i < cu.values.len()
                invariant
                    0 <= i <= cu.values@.len(),
                    pair_views(vals@) == pair_views(cu.values@).take(i as int),
                decreases cu.values@.len() - i,
            {
                let ghost done = pair_views(vals@);
                vals.push((clone_bytes(&cu.values[i].0), clone_bytes(&cu.values[i].1)));
                proof {
                    assert(pair_views(vals@) =~= done.push(pair_views(cu.values@)[i as int]));
                    assert(pair_views(cu.values@).take(i + 1) =~= pair_views(cu.values@).take(
                        i as int,
                    ).push(pair_views(cu.values@)[i as int]));
                }
                i += 1;
            }
            proof {
                assert(pair_views(cu.values@).take(cu.values@.len() as int) =~= pair_views(
                    cu.values@,
                ));
                assert(pair_views(vals@) =~= config_pairs(*config));
            }
        },
    }
    render_template(template, &vals)
}

} // verus!
