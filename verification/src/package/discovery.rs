//! Deriving namespaces from the paths of a package's ontology files.

use vstd::multiset::Multiset;
use vstd::prelude::*;

use crate::ast::{join_seq, texts, QualifiedName};
use crate::package::PackageError;
use crate::lexer::scan::lit_eq;
use crate::text::{
    chars_eq, chars_of, is_ascii_letter, is_ascii_letter_exec, is_ident_char, is_ident_char_exec,
    slice_chars, str_eq, string_from_chars,
};

verus! {

/// Information about a discovered ontology file.
#[derive(Debug, Clone)]
pub struct DiscoveredFile {
    /// Path relative to package root, components separated by `/`
    pub relative_path: String,
    /// Absolute path
    pub absolute_path: String,
    /// Namespace derived from the file path
    pub derived_namespace: QualifiedName,
}

/// Must start with an ASCII letter, followed by ASCII letters, digits, or underscores.
pub open spec fn valid_namespace_part(s: Seq<char>) -> bool {
    &&& s.len() > 0
    &&& is_ascii_letter(s[0])
    &&& forall|i: int| 1 <= i < s.len() ==> is_ident_char(#[trigger] s[i])
}

/// Check if a string is a valid namespace part.
///
/// Must start with a letter, followed by letters, digits, or underscores.
pub fn is_valid_namespace_part(s: &str) -> (r: bool)
    ensures
        r == valid_namespace_part(s@),
{
    let c = chars_of(s);
    if c.len() == 0 {
        return false;
    }
    if !is_ascii_letter_exec(c[0]) {
        return false;
    }
    let mut i: usize = 1;
    while i < c.len()
        invariant
            1 <= i <= c@.len(),
            c@ == s@,
            forall|j: int| 1 <= j < i ==> is_ident_char(#[trigger] c@[j]),
        decreases c@.len() - i,
    {
        if !is_ident_char_exec(c[i]) {
            return false;
        }
        i = i + 1;
    }
    true
}

/// The ASCII lowercase of a character.
pub open spec fn ascii_lower(c: char) -> char {
    if 'A' <= c && c <= 'Z' {
        ((c as u32) + 32) as char
    } else {
        c
    }
}

/// The ASCII lowercase of a text.
pub open spec fn ascii_lower_seq(s: Seq<char>) -> Seq<char> {
    s.map_values(|c: char| ascii_lower(c))
}

fn ascii_lower_exec(c: char) -> (r: char)
    ensures
        r == ascii_lower(c),
{
    if 'A' <= c && c <= 'Z' {
        let b = (c as u8) + 32;
        b as char
    } else {
        c
    }
}

/// The non-empty pieces of a `/`-separated path other than `.` and `..`:
/// the names of its normal components.
pub open spec fn path_components(p: Seq<char>) -> Seq<Seq<char>> {
    normal_pieces(crate::text::split(p, '/'))
}

/// A piece names a normal path component: it is not empty, `.` or `..`.
pub open spec fn is_normal_piece(x: Seq<char>) -> bool {
    x.len() > 0 && x != "."@ && x != ".."@
}

/// The pieces that name normal components, in order.
pub open spec fn normal_pieces(ps: Seq<Seq<char>>) -> Seq<Seq<char>>
    decreases ps.len(),
{
    if ps.len() == 0 {
        seq![]
    } else if is_normal_piece(ps.last()) {
        normal_pieces(ps.drop_last()).push(ps.last())
    } else {
        normal_pieces(ps.drop_last())
    }
}

/// `s` without a final `.dlf`.
pub open spec fn strip_dlf(s: Seq<char>) -> Seq<char> {
    if s.len() >= 4 && s.subrange(s.len() - 4, s.len() as int) == ".dlf"@ {
        s.subrange(0, s.len() - 4)
    } else {
        s
    }
}

/// The message for a component that is not a valid namespace part.
pub open spec fn invalid_component_message(name: Seq<char>) -> Seq<char> {
    "Invalid namespace component '"@ + name
        + "'. Use ASCII letters, digits, and underscores only. Use @iri_name annotation for non-ASCII IRI names."@
}

/// The namespace parts of a path: each component without `.dlf`, lowercased;
/// the first component that is not a valid namespace part (without `.dlf`)
/// is an error, and so is a path without components.
pub open spec fn namespace_of_path(p: Seq<char>) -> Result<Seq<Seq<char>>, Seq<char>> {
    let cs = path_components(p).map_values(|x: Seq<char>| strip_dlf(x));
    if exists|i: int| 0 <= i < cs.len() && !valid_namespace_part(#[trigger] cs[i]) {
        let i = choose|i: int|
            0 <= i < cs.len() && !valid_namespace_part(#[trigger] cs[i]) && forall|j: int|
                0 <= j < i ==> valid_namespace_part(#[trigger] cs[j]);
        Err(invalid_component_message(cs[i]))
    } else if cs.len() == 0 {
        Err("Empty namespace derived from path"@)
    } else {
        Ok(cs.map_values(|x: Seq<char>| ascii_lower_seq(x)))
    }
}

/// Namespace parts are the path's components without `.dlf`, in lower case:
/// one part per component, each as long as its component, with no ASCII
/// capital letter, and each letter the component's letter or, for a capital,
/// its small letter.
pub proof fn lemma_namespace_parts_lowercase(p: Seq<char>)
    ensures
        namespace_of_path(p) matches Ok(ns) ==> {
            let cs = path_components(p);
            &&& ns.len() == cs.len()
            &&& forall|i: int| 0 <= i < ns.len() ==> (#[trigger] ns[i]).len() == strip_dlf(cs[i]).len()
            &&& forall|i: int, j: int|
                0 <= i < ns.len() && 0 <= j < ns[i].len() ==> {
                    let c = strip_dlf(cs[i])[j];
                    let d = #[trigger] ns[i][j];
                    &&& !('A' <= d && d <= 'Z')
                    &&& (d == c || ('A' <= c && c <= 'Z' && d as u32 == c as u32 + 32))
                }
            &&& forall|i: int|
                0 <= i < ns.len() ==> (#[trigger] ns[i]).len() > 0 && 'a' <= ns[i][0] && ns[i][0] <= 'z'
                    && forall|j: int|
                    0 <= j < ns[i].len() ==> ('a' <= #[trigger] ns[i][j] && ns[i][j] <= 'z') || ('0' <= ns[i][j]
                        && ns[i][j] <= '9') || ns[i][j] == '_'
        },
{
    let cs = path_components(p).map_values(|x: Seq<char>| strip_dlf(x));
    if namespace_of_path(p) is Ok {
        let ns = cs.map_values(|x: Seq<char>| ascii_lower_seq(x));
        assert(namespace_of_path(p) == Ok::<Seq<Seq<char>>, Seq<char>>(ns));
        assert forall|i: int, j: int| 0 <= i < ns.len() && 0 <= j < ns[i].len() implies {
            let c = strip_dlf(path_components(p)[i])[j];
            let d = #[trigger] ns[i][j];
            &&& !('A' <= d && d <= 'Z')
            &&& (d == c || ('A' <= c && c <= 'Z' && d as u32 == c as u32 + 32))
        } by {
            assert(cs[i] == strip_dlf(path_components(p)[i]));
            assert(ns[i] == ascii_lower_seq(cs[i]));
            assert(ns[i][j] == ascii_lower(cs[i][j]));
        }
        assert forall|i: int| 0 <= i < ns.len() implies (#[trigger] ns[i]).len() > 0 && 'a' <= ns[i][0] && ns[i][0]
            <= 'z' && forall|j: int|
            0 <= j < ns[i].len() ==> ('a' <= #[trigger] ns[i][j] && ns[i][j] <= 'z') || ('0' <= ns[i][j] && ns[i][j]
                <= '9') || ns[i][j] == '_' by {
            assert(valid_namespace_part(cs[i]));
            assert(ns[i] == ascii_lower_seq(cs[i]));
            assert(ns[i][0] == ascii_lower(cs[i][0]));
            assert forall|j: int| 0 <= j < ns[i].len() implies ('a' <= #[trigger] ns[i][j] && ns[i][j] <= 'z') || (
            '0' <= ns[i][j] && ns[i][j] <= '9') || ns[i][j] == '_' by {
                assert(ns[i][j] == ascii_lower(cs[i][j]));
                if j > 0 {
                    assert(is_ident_char(cs[i][j]));
                }
            }
        }
    }
}

/// The components of a `/`-separated path, in order.
pub(crate) fn components_of(p: &[char]) -> (r: Vec<Vec<char>>)
    ensures
        r@.len() == path_components(p@).len(),
        forall|i: int| 0 <= i < r@.len() ==> (#[trigger] r@[i])@ == path_components(p@)[i],
{
    let n = p.len();
    let mut out: Vec<Vec<char>> = Vec::new();
    let mut pos: usize = 0;
    let ghost pieces: Seq<Seq<char>> = seq![];
    loop
        invariant
            pos <= n == p@.len(),
            crate::text::split(p@, '/') == pieces + crate::text::split_from(p@, '/', pos as int),
            out@.len() == normal_pieces(pieces).len(),
            forall|i: int| 0 <= i < out@.len() ==> (#[trigger] out@[i])@ == normal_pieces(pieces)[i],
        decreases n - pos + 1,
    {
        let ghost pieces0 = pieces;
        let found = crate::text::find_char_exec(p, pos, n, '/');
        let end = match found {
            Some(k) => k,
            None => n,
        };
        proof {
            crate::text::lemma_run_end(p@, pos as int, n as int, crate::text::CharClass::Not('/'));
        }
        let piece = slice_chars(p, pos, end);
        let keep = piece.len() > 0 && !(piece.len() == 1 && piece[0] == '.') && !(piece.len() == 2
            && piece[0] == '.' && piece[1] == '.');
        proof {
            reveal_strlit(".");
            reveal_strlit("..");
            pieces = pieces.push(piece@);
            assert(pieces0.push(piece@).drop_last() =~= pieces0);
            assert(keep == is_normal_piece(piece@)) by {
                if piece@.len() == 1 && piece@ == "."@ {
                    assert(piece@[0] == '.');
                }
                if piece@.len() == 2 && piece@ == ".."@ {
                    assert(piece@[0] == '.' && piece@[1] == '.');
                }
                if piece@.len() == 1 && piece@[0] == '.' {
                    assert(piece@ =~= "."@);
                }
                if piece@.len() == 2 && piece@[0] == '.' && piece@[1] == '.' {
                    assert(piece@ =~= ".."@);
                }
            }
            assert(pieces.last() == piece@);
        }
        if keep {
            out.push(piece);
        }
        match found {
            Some(k) => {
                proof {
                    assert(crate::text::split_from(p@, '/', pos as int) =~= seq![piece@] + crate::text::split_from(p@, '/', k + 1));
                    assert(pieces + crate::text::split_from(p@, '/', k + 1) =~= pieces0 + crate::text::split_from(p@, '/', pos as int));
                }
                pos = k + 1;
            },
            None => {
                proof {
                    assert(crate::text::split_from(p@, '/', pos as int) =~= seq![piece@]);
                    assert(crate::text::split(p@, '/') =~= pieces);
                }
                return out;
            },
        }
    }
}

/// `s` without a final `.dlf`, as bounds `s[0..r]`.
fn strip_dlf_len(s: &[char]) -> (r: usize)
    ensures
        s@.subrange(0, r as int) == strip_dlf(s@),
        r <= s@.len(),
{
    let n = s.len();
    proof {
        reveal_strlit(".dlf");
    }
    if n >= 4 && s[n - 4] == '.' && s[n - 3] == 'd' && s[n - 2] == 'l' && s[n - 1] == 'f' {
        proof {
            assert(s@.subrange(n - 4, n as int) =~= ".dlf"@);
        }
        n - 4
    } else {
        proof {
            if n >= 4 && s@.subrange(n - 4, n as int) == ".dlf"@ {
                assert(s@.subrange(n - 4, n as int)[0] == '.');
                assert(s@.subrange(n - 4, n as int)[1] == 'd');
                assert(s@.subrange(n - 4, n as int)[2] == 'l');
                assert(s@.subrange(n - 4, n as int)[3] == 'f');
            }
            assert(s@.subrange(0, n as int) =~= s@);
        }
        n
    }
}

/// Convert a file path to a namespace.
///
/// Rules:
/// - Directory separators become dots
/// - The .dlf extension is removed
/// - Names are converted to lowercase
/// - Invalid characters are rejected
///
/// Example: `science/biology/Animal.dlf` -> `science.biology.animal`
pub fn path_to_namespace(path: &str) -> (r: Result<QualifiedName, PackageError>)
    ensures
        r matches Ok(q) ==> namespace_of_path(path@) == Ok::<Seq<Seq<char>>, Seq<char>>(texts(q.parts@))
            && !q.is_prefixed && q.span is None,
        r matches Err(e) ==> e matches PackageError::InvalidStructure(m) && namespace_of_path(path@)
            == Err::<Seq<Seq<char>>, Seq<char>>(m@),
{
    let p = chars_of(path);
    let comps = components_of(p.as_slice());
    let ghost cs = path_components(path@).map_values(|x: Seq<char>| strip_dlf(x));
    let mut parts: Vec<String> = Vec::new();
    let mut i: usize = 0;
    while i < comps.len()
        invariant
            0 <= i <= comps@.len(),
            comps@.len() == path_components(path@).len(),
            forall|k: int| 0 <= k < comps@.len() ==> (#[trigger] comps@[k])@ == path_components(path@)[k],
            cs == path_components(path@).map_values(|x: Seq<char>| strip_dlf(x)),
            parts@.len() == i,
            forall|k: int| 0 <= k < i ==> valid_namespace_part(#[trigger] cs[k]),
            forall|k: int| 0 <= k < i ==> (#[trigger] parts@[k])@ == ascii_lower_seq(cs[k]),
        decreases comps@.len() - i,
    {
        let c = &comps[i];
        let l = strip_dlf_len(c.as_slice());
        let name = slice_chars(c.as_slice(), 0, l);
        let name_str = string_from_chars(name.as_slice());
        if !is_valid_namespace_part(name_str.as_str()) {
            let mut m = chars_of("Invalid namespace component '");
            let mut nm = name.clone();
            m.append(&mut nm);
            let mut tail = chars_of(
                "'. Use ASCII letters, digits, and underscores only. Use @iri_name annotation for non-ASCII IRI names.",
            );
            m.append(&mut tail);
            proof {
                assert(cs[i as int] == name@);
                assert(exists|j: int| 0 <= j < cs.len() && !valid_namespace_part(#[trigger] cs[j]));
                let j = choose|j: int|
                    0 <= j < cs.len() && !valid_namespace_part(#[trigger] cs[j]) && forall|k: int|
                        0 <= k < j ==> valid_namespace_part(#[trigger] cs[k]);
                assert(0 <= i && !valid_namespace_part(cs[i as int]) && forall|k: int|
                    0 <= k < i ==> valid_namespace_part(#[trigger] cs[k]));
                if j < i {
                } else if j > i {
                    assert(valid_namespace_part(cs[i as int]));
                }
                assert(m@ =~= invalid_component_message(cs[i as int]));
            }
            return Err(PackageError::InvalidStructure(string_from_chars(m.as_slice())));
        }
        let mut lower: Vec<char> = Vec::new();
        let mut k: usize = 0;
        while k < name.len()
            invariant
                0 <= k <= name@.len(),
                lower@ == ascii_lower_seq(name@.subrange(0, k as int)),
            decreases name@.len() - k,
        {
            lower.push(ascii_lower_exec(name[k]));
            k = k + 1;
            proof {
                assert(lower@ =~= ascii_lower_seq(name@.subrange(0, k as int)));
            }
        }
        proof {
            assert(name@.subrange(0, name@.len() as int) =~= name@);
            assert(cs[i as int] == name@);
        }
        parts.push(string_from_chars(lower.as_slice()));
        i = i + 1;
    }
    if parts.len() == 0 {
        proof {
            reveal_strlit("Empty namespace derived from path");
        }
        return Err(PackageError::InvalidStructure(String::from_str("Empty namespace derived from path")));
    }
    proof {
        assert(texts(parts@) =~= cs.map_values(|x: Seq<char>| ascii_lower_seq(x)));
    }
    Ok(QualifiedName::new(parts, None))
}

// ----------------------------------------------------------------------------
// Paths made of namespace parts
// ----------------------------------------------------------------------------

/// `s` has no `/`.
pub open spec fn no_slash(s: Seq<char>) -> bool {
    forall|i: int| 0 <= i < s.len() ==> s[i] != '/'
}

/// Splitting from `pos + j` in `s` splits `s[pos..]` from `j`.
proof fn lemma_split_from_shift(s: Seq<char>, pos: int, j: int)
    requires
        0 <= pos <= s.len(),
        0 <= j <= s.len() - pos,
    ensures
        crate::text::split_from(s, '/', pos + j) == crate::text::split_from(s.subrange(pos, s.len() as int), '/', j),
    decreases s.len() - pos - j,
{
    let t = s.subrange(pos, s.len() as int);
    crate::text::lemma_find_char_shift(s, pos + j, s.len() as int, '/');
    crate::text::lemma_find_char_shift(t, j, t.len() as int, '/');
    assert(s.subrange(pos + j, s.len() as int) =~= t.subrange(j, t.len() as int));
    crate::text::lemma_run_end(s, pos + j, s.len() as int, crate::text::CharClass::Not('/'));
    crate::text::lemma_run_end(t, j, t.len() as int, crate::text::CharClass::Not('/'));
    match crate::text::find_char(s, pos + j, s.len() as int, '/') {
        Some(k) => {
            assert(crate::text::find_char(t, j, t.len() as int, '/') == Some(k - pos));
            assert(s.subrange(pos + j, k) =~= t.subrange(j, k - pos));
            lemma_split_from_shift(s, pos, k + 1 - pos);
        },
        None => {
            assert(s.subrange(pos + j, s.len() as int) =~= t.subrange(j, t.len() as int));
        },
    }
}

/// A join splits at its first separator.
proof fn lemma_join_front(ps: Seq<Seq<char>>)
    requires
        ps.len() >= 2,
    ensures
        join_seq(ps, "/"@) == ps[0] + "/"@ + join_seq(ps.subrange(1, ps.len() as int), "/"@),
    decreases ps.len(),
{
    let d = ps.drop_last();
    let r = ps.subrange(1, ps.len() as int);
    if ps.len() == 2 {
        assert(d.len() == 1);
        assert(join_seq(d, "/"@) == d[0]);
        assert(r.len() == 1);
        assert(join_seq(r, "/"@) == r[0]);
        assert(join_seq(ps, "/"@) == join_seq(d, "/"@) + "/"@ + ps.last());
        assert(ps[0] + "/"@ + join_seq(r, "/"@) =~= join_seq(d, "/"@) + "/"@ + ps.last());
    } else {
        lemma_join_front(d);
        assert(r.drop_last() =~= d.subrange(1, d.len() as int));
        assert(r.last() == ps.last());
        assert(join_seq(r, "/"@) == join_seq(r.drop_last(), "/"@) + "/"@ + r.last());
        assert(join_seq(ps, "/"@) == join_seq(d, "/"@) + "/"@ + ps.last());
        assert(d[0] == ps[0]);
        assert(ps[0] + "/"@ + join_seq(r, "/"@) =~= (d[0] + "/"@ + join_seq(d.subrange(1, d.len() as int), "/"@))
            + "/"@ + ps.last());
    }
}

/// The pieces of a `/`-join of names without `/`, followed by a text without
/// `/`, are the names, the last one followed by that text.
#[verifier::rlimit(40)]
proof fn lemma_split_join(ps: Seq<Seq<char>>, suf: Seq<char>)
    requires
        ps.len() >= 1,
        forall|i: int| 0 <= i < ps.len() ==> no_slash(#[trigger] ps[i]),
        no_slash(suf),
    ensures
        crate::text::split(join_seq(ps, "/"@) + suf, '/') == ps.update(ps.len() - 1, ps.last() + suf),
    decreases ps.len(),
{
    reveal_strlit("/");
    let s = join_seq(ps, "/"@) + suf;
    if ps.len() == 1 {
        assert(s =~= ps[0] + suf);
        crate::text::lemma_run_end(s, 0, s.len() as int, crate::text::CharClass::Not('/'));
        assert forall|i: int| 0 <= i < s.len() implies crate::text::in_class(s[i], crate::text::CharClass::Not('/')) by {
            if i < ps[0].len() {
                assert(s[i] == ps[0][i]);
            } else {
                assert(s[i] == suf[i - ps[0].len()]);
            }
        }
        lemma_run_end_all(s, 0);
        assert(s.subrange(0, s.len() as int) =~= s);
        assert(ps.update(0, ps.last() + suf) =~= seq![s]);
    } else {
        lemma_join_front(ps);
        let a = ps[0];
        let rest = ps.subrange(1, ps.len() as int);
        let t = join_seq(rest, "/"@) + suf;
        assert(s =~= a + "/"@ + t);
        lemma_run_end_prefix(s, a.len() as int);
        assert(s[a.len() as int] == '/');
        assert(crate::text::find_char(s, 0, s.len() as int, '/') == Some(a.len() as int));
        assert(s.subrange(0, a.len() as int) =~= a);
        lemma_split_from_shift(s, a.len() as int + 1, 0);
        assert(s.subrange(a.len() as int + 1, s.len() as int) =~= t);
        assert forall|i: int| 0 <= i < rest.len() implies no_slash(#[trigger] rest[i]) by {
            assert(rest[i] == ps[i + 1]);
        }
        lemma_split_join(rest, suf);
        assert(seq![a] + rest.update(rest.len() - 1, rest.last() + suf) =~= ps.update(ps.len() - 1, ps.last() + suf));
    }
}

/// A run of non-`/` characters over a whole text ends at its end.
proof fn lemma_run_end_all(s: Seq<char>, i: int)
    requires
        0 <= i <= s.len(),
        forall|k: int| i <= k < s.len() ==> crate::text::in_class(s[k], crate::text::CharClass::Not('/')),
    ensures
        crate::text::run_end(s, i, s.len() as int, crate::text::CharClass::Not('/')) == s.len(),
    decreases s.len() - i,
{
    if i < s.len() {
        lemma_run_end_all(s, i + 1);
    }
}

/// The run of non-`/` characters from the start ends at the first `/`, at `m`.
proof fn lemma_run_end_prefix(s: Seq<char>, m: int)
    requires
        0 <= m < s.len(),
        forall|k: int| 0 <= k < m ==> s[k] != '/',
        s[m] == '/',
    ensures
        crate::text::run_end(s, 0, s.len() as int, crate::text::CharClass::Not('/')) == m,
{
    lemma_run_end_upto(s, 0, m);
}

proof fn lemma_run_end_upto(s: Seq<char>, i: int, m: int)
    requires
        0 <= i <= m < s.len(),
        forall|k: int| i <= k < m ==> s[k] != '/',
        s[m] == '/',
    ensures
        crate::text::run_end(s, i, s.len() as int, crate::text::CharClass::Not('/')) == m,
    decreases m - i,
{
    if i < m {
        lemma_run_end_upto(s, i + 1, m);
    }
}

/// Pieces that all name normal components are kept as they are.
proof fn lemma_normal_pieces_all(ps: Seq<Seq<char>>)
    requires
        forall|i: int| 0 <= i < ps.len() ==> is_normal_piece(#[trigger] ps[i]),
    ensures
        normal_pieces(ps) == ps,
    decreases ps.len(),
{
    if ps.len() > 0 {
        lemma_normal_pieces_all(ps.drop_last());
        assert(ps.drop_last().push(ps.last()) =~= ps);
    }
}

/// Lowercasing keeps a valid namespace part valid, and lowercasing twice is
/// lowercasing once.
pub proof fn lemma_ascii_lower_valid(s: Seq<char>)
    requires
        valid_namespace_part(s),
    ensures
        valid_namespace_part(ascii_lower_seq(s)),
        ascii_lower_seq(ascii_lower_seq(s)) == ascii_lower_seq(s),
{
    assert(ascii_lower_seq(ascii_lower_seq(s)) =~= ascii_lower_seq(s));
}

/// A valid namespace part has no `/` and does not end with `.dlf`.
proof fn lemma_valid_part_plain(s: Seq<char>)
    requires
        valid_namespace_part(s),
    ensures
        no_slash(s),
        is_normal_piece(s),
        strip_dlf(s) == s,
        strip_dlf(s + ".dlf"@) == s,
        is_normal_piece(s + ".dlf"@),
{
    reveal_strlit(".dlf");
    reveal_strlit(".");
    reveal_strlit("..");
    assert forall|i: int| 0 <= i < s.len() implies s[i] != '/' by {
        if i > 0 {
            assert(is_ident_char(s[i]));
        }
    }
    if s.len() >= 4 && s.subrange(s.len() - 4, s.len() as int) == ".dlf"@ {
        assert(s.subrange(s.len() - 4, s.len() as int)[0] == '.');
        assert(is_ident_char(s[s.len() - 4]));
    }
    let t = s + ".dlf"@;
    assert(t.subrange(t.len() - 4, t.len() as int) =~= ".dlf"@);
    assert(t.subrange(0, t.len() - 4) =~= s);
    if s == "."@ || s == ".."@ {
        assert(s[0] == '.');
    }
    if t == "."@ || t == ".."@ {
        assert(t.len() >= 5);
    }
}

/// The path that joins valid, lowercase namespace parts by `/`, with `.dlf`,
/// leads back to those parts.
pub proof fn lemma_path_of_parts(ps: Seq<Seq<char>>)
    requires
        ps.len() >= 1,
        forall|i: int| 0 <= i < ps.len() ==> valid_namespace_part(#[trigger] ps[i]),
        forall|i: int| 0 <= i < ps.len() ==> ascii_lower_seq(#[trigger] ps[i]) == ps[i],
    ensures
        namespace_of_path(join_seq(ps, "/"@) + ".dlf"@) == Ok::<Seq<Seq<char>>, Seq<char>>(ps),
{
    reveal_strlit(".dlf");
    let p = join_seq(ps, "/"@) + ".dlf"@;
    assert forall|i: int| 0 <= i < ps.len() implies no_slash(#[trigger] ps[i]) by {
        lemma_valid_part_plain(ps[i]);
    }
    assert(no_slash(".dlf"@));
    lemma_split_join(ps, ".dlf"@);
    let pieces = ps.update(ps.len() - 1, ps.last() + ".dlf"@);
    assert forall|i: int| 0 <= i < pieces.len() implies is_normal_piece(#[trigger] pieces[i]) by {
        lemma_valid_part_plain(ps[i]);
    }
    lemma_normal_pieces_all(pieces);
    let cs = path_components(p).map_values(|x: Seq<char>| strip_dlf(x));
    assert forall|i: int| 0 <= i < cs.len() implies cs[i] == ps[i] by {
        lemma_valid_part_plain(ps[i]);
    }
    assert(cs =~= ps);
    assert(cs.map_values(|x: Seq<char>| ascii_lower_seq(x)) =~= ps);
}

// ============================================================================
// WALKED FILES
// ============================================================================

/// The file name of a path: its last component, or nothing.
pub open spec fn file_name_of(p: Seq<char>) -> Seq<char> {
    let cs = path_components(p);
    if cs.len() > 0 {
        cs.last()
    } else {
        seq![]
    }
}

/// A walked file is an ontology file: its name has the extension `dlf` (a
/// name with something before `.dlf`) and is not `package.dlf`.
pub open spec fn is_ontology_file(p: Seq<char>) -> bool {
    let n = file_name_of(p);
    n != "package.dlf"@ && n.len() > 4 && n.subrange(n.len() - 4, n.len() as int) == ".dlf"@
}

/// The file found at `relative` (its path below the package root) and
/// `absolute`: none when it is not an ontology file; an error when its path
/// names no valid namespace; else the file with the namespace its path gives.
pub fn discovered_file(relative: &str, absolute: &str) -> (r: Result<Option<DiscoveredFile>, PackageError>)
    ensures
        !is_ontology_file(relative@) ==> r matches Ok(None),
        is_ontology_file(relative@) ==> match namespace_of_path(relative@) {
            Ok(ns) => r matches Ok(Some(d)) && d.relative_path@ == relative@ && d.absolute_path@ == absolute@
                && texts(d.derived_namespace.parts@) == ns && !d.derived_namespace.is_prefixed
                && d.derived_namespace.span is None,
            Err(m) => r matches Err(PackageError::InvalidStructure(x)) && x@ == m,
        },
{
    let c = chars_of(relative);
    let comps = components_of(c.as_slice());
    if comps.len() == 0 {
        return Ok(None);
    }
    let name = comps[comps.len() - 1].as_slice();
    let n = name.len();
    let pkg = chars_of("package.dlf");
    if chars_eq(name, pkg.as_slice()) || n <= 4 || !lit_eq(name, n - 4, n, ".dlf") {
        return Ok(None);
    }
    match path_to_namespace(relative) {
        Ok(ns) => Ok(
            Some(
                DiscoveredFile {
                    relative_path: String::from_str(relative),
                    absolute_path: String::from_str(absolute),
                    derived_namespace: ns,
                },
            ),
        ),
        Err(e) => Err(e),
    }
}

// ============================================================================
// ORDER OF PATHS
// ============================================================================

/// `a` comes before `b`, comparing characters by their code points and a
/// proper prefix before what it is a prefix of.
pub open spec fn chars_lt(a: Seq<char>, b: Seq<char>) -> bool
    decreases a.len(),
{
    if a.len() == 0 {
        b.len() > 0
    } else if b.len() == 0 {
        false
    } else if a[0] == b[0] {
        chars_lt(a.drop_first(), b.drop_first())
    } else {
        (a[0] as u32) < (b[0] as u32)
    }
}

/// `a` comes before `b`, comparing components with [`chars_lt`] and a
/// proper prefix before what it is a prefix of.
pub open spec fn comps_lt(a: Seq<Seq<char>>, b: Seq<Seq<char>>) -> bool
    decreases a.len(),
{
    if a.len() == 0 {
        b.len() > 0
    } else if b.len() == 0 {
        false
    } else if a[0] == b[0] {
        comps_lt(a.drop_first(), b.drop_first())
    } else {
        chars_lt(a[0], b[0])
    }
}

/// The path `a` comes before the path `b`: their components compare so.
pub open spec fn path_lt(a: Seq<char>, b: Seq<char>) -> bool {
    comps_lt(path_components(a), path_components(b))
}

/// Nothing comes before itself.
pub proof fn lemma_chars_lt_irreflexive(a: Seq<char>)
    ensures
        !chars_lt(a, a),
    decreases a.len(),
{
    if a.len() > 0 {
        lemma_chars_lt_irreflexive(a.drop_first());
    }
}

/// The order of texts is transitive.
pub proof fn lemma_chars_lt_transitive(a: Seq<char>, b: Seq<char>, c: Seq<char>)
    requires
        chars_lt(a, b),
        chars_lt(b, c),
    ensures
        chars_lt(a, c),
    decreases a.len(),
{
    if a.len() > 0 && b.len() > 0 && c.len() > 0 && a[0] == b[0] && b[0] == c[0] {
        lemma_chars_lt_transitive(a.drop_first(), b.drop_first(), c.drop_first());
    }
}

/// No path comes before itself.
pub proof fn lemma_comps_lt_irreflexive(a: Seq<Seq<char>>)
    ensures
        !comps_lt(a, a),
    decreases a.len(),
{
    if a.len() > 0 {
        lemma_comps_lt_irreflexive(a.drop_first());
    }
}

/// The order of paths is transitive.
pub proof fn lemma_comps_lt_transitive(a: Seq<Seq<char>>, b: Seq<Seq<char>>, c: Seq<Seq<char>>)
    requires
        comps_lt(a, b),
        comps_lt(b, c),
    ensures
        comps_lt(a, c),
    decreases a.len(),
{
    if a.len() > 0 && b.len() > 0 && c.len() > 0 {
        if a[0] == b[0] && b[0] == c[0] {
            lemma_comps_lt_transitive(a.drop_first(), b.drop_first(), c.drop_first());
        } else if a[0] != b[0] && b[0] != c[0] {
            lemma_chars_lt_transitive(a[0], b[0], c[0]);
            if a[0] == c[0] {
                lemma_chars_lt_irreflexive(a[0]);
            }
        }
    }
}

fn chars_lt_exec(a: &[char], b: &[char]) -> (r: bool)
    ensures
        r == chars_lt(a@, b@),
{
    let mut i: usize = 0;
    proof {
        assert(a@.subrange(0, a@.len() as int) =~= a@);
        assert(b@.subrange(0, b@.len() as int) =~= b@);
    }
    while i < a.len() && i < b.len() && a[i] == b[i]
        invariant
            i <= a@.len(),
            i <= b@.len(),
            chars_lt(a@, b@) == chars_lt(a@.subrange(i as int, a@.len() as int), b@.subrange(i as int, b@.len() as int)),
        decreases a@.len() - i,
    {
        proof {
            let x = a@.subrange(i as int, a@.len() as int);
            let y = b@.subrange(i as int, b@.len() as int);
            assert(x.drop_first() =~= a@.subrange(i + 1, a@.len() as int));
            assert(y.drop_first() =~= b@.subrange(i + 1, b@.len() as int));
        }
        i = i + 1;
    }
    if i == a.len() {
        i < b.len()
    } else if i == b.len() {
        false
    } else {
        (a[i] as u32) < (b[i] as u32)
    }
}

/// The views of the pieces.
pub open spec fn piece_views(v: Seq<Vec<char>>) -> Seq<Seq<char>> {
    v.map_values(|x: Vec<char>| x@)
}

fn comps_lt_exec(a: &Vec<Vec<char>>, b: &Vec<Vec<char>>) -> (r: bool)
    ensures
        r == comps_lt(piece_views(a@), piece_views(b@)),
{
    let ghost pa = piece_views(a@);
    let ghost pb = piece_views(b@);
    let mut i: usize = 0;
    proof {
        assert(pa.subrange(0, pa.len() as int) =~= pa);
        assert(pb.subrange(0, pb.len() as int) =~= pb);
    }
    while i < a.len() && i < b.len() && chars_eq(a[i].as_slice(), b[i].as_slice())
        invariant
            i <= a@.len(),
            i <= b@.len(),
            pa == piece_views(a@),
            pb == piece_views(b@),
            comps_lt(pa, pb) == comps_lt(pa.subrange(i as int, pa.len() as int), pb.subrange(i as int, pb.len() as int)),
        decreases a@.len() - i,
    {
        proof {
            let x = pa.subrange(i as int, pa.len() as int);
            let y = pb.subrange(i as int, pb.len() as int);
            assert(x.drop_first() =~= pa.subrange(i + 1, pa.len() as int));
            assert(y.drop_first() =~= pb.subrange(i + 1, pb.len() as int));
        }
        i = i + 1;
    }
    if i == a.len() {
        i < b.len()
    } else if i == b.len() {
        false
    } else {
        chars_lt_exec(a[i].as_slice(), b[i].as_slice())
    }
}

fn path_key(p: &str) -> (r: Vec<Vec<char>>)
    ensures
        piece_views(r@) == path_components(p@),
{
    let c = chars_of(p);
    let r = components_of(c.as_slice());
    proof {
        assert(piece_views(r@) =~= path_components(p@));
    }
    r
}

/// The files are in the order of their relative paths.
pub open spec fn sorted_by_path(fs: Seq<DiscoveredFile>) -> bool {
    forall|i: int, j: int|
        0 <= i < j < fs.len() ==> !path_lt(#[trigger] fs[j].relative_path@, #[trigger] fs[i].relative_path@)
}

/// Sort discovered files by their relative paths, component by component.
pub fn sort_discovered(files: Vec<DiscoveredFile>) -> (r: Vec<DiscoveredFile>)
    ensures
        r@.to_multiset() == files@.to_multiset(),
        sorted_by_path(r@),
{
    broadcast use vstd::seq_lib::group_to_multiset_ensures, vstd::multiset::group_multiset_axioms;

    let ghost orig = files@;
    let mut rest = files;
    let mut out: Vec<DiscoveredFile> = Vec::new();
    proof {
        assert(out@.to_multiset() =~= Multiset::<DiscoveredFile>::empty());
        assert(out@.to_multiset().add(rest@.to_multiset()) =~= orig.to_multiset());
    }
    while rest.len() > 0
        invariant
            out@.to_multiset().add(rest@.to_multiset()) == orig.to_multiset(),
            sorted_by_path(out@),
        decreases rest@.len(),
    {
        let ghost r0 = rest@;
        let ghost o0 = out@;
        let f = rest.remove(0);
        let fk = path_key(f.relative_path.as_str());
        let mut p: usize = 0;
        while p < out.len() && !comps_lt_exec(&fk, &path_key(out[p].relative_path.as_str()))
            invariant
                p <= out@.len(),
                out@ == o0,
                piece_views(fk@) == path_components(f.relative_path@),
                forall|q: int| 0 <= q < p ==> !path_lt(f.relative_path@, #[trigger] out@[q].relative_path@),
            decreases out@.len() - p,
        {
            p = p + 1;
        }
        let ghost x = f;
        out.insert(p, f);
        proof {
            assert(out@ == o0.insert(p as int, x));
            assert forall|i: int, j: int| 0 <= i < j < out@.len() implies !path_lt(
                #[trigger] out@[j].relative_path@,
                #[trigger] out@[i].relative_path@,
            ) by {
                let xi = x.relative_path@;
                if i < p && j == p {
                } else if i < p && j > p {
                    assert(out@[j] == o0[j - 1]);
                    assert(out@[i] == o0[i]);
                } else if i == p && j > p {
                    let a = path_components(o0[j - 1].relative_path@);
                    let b = path_components(xi);
                    assert(out@[j] == o0[j - 1]);
                    if comps_lt(a, b) {
                        assert(p < o0.len());
                        let c = path_components(o0[p as int].relative_path@);
                        assert(comps_lt(b, c));
                        lemma_comps_lt_transitive(a, b, c);
                        if j - 1 == p {
                            lemma_comps_lt_irreflexive(a);
                        } else {
                            assert(!path_lt(o0[j - 1].relative_path@, o0[p as int].relative_path@));
                        }
                    }
                } else if i > p {
                    assert(out@[j] == o0[j - 1]);
                    assert(out@[i] == o0[i - 1]);
                } else {
                    assert(out@[j] == o0[j]);
                    assert(out@[i] == o0[i]);
                }
            }
            assert(r0.remove(0) == rest@);
            assert(r0[0] == x);
            vstd::seq_lib::to_multiset_remove(r0, 0);
            vstd::seq_lib::to_multiset_insert(o0, p as int, x);
            vstd::seq_lib::to_multiset_contains(r0, x);
            assert(r0.contains(x));
            assert(r0.to_multiset().count(x) > 0);
            assert(out@.to_multiset().add(rest@.to_multiset()) =~= orig.to_multiset());
        }
    }
    proof {
        assert(rest@.to_multiset() =~= Multiset::<DiscoveredFile>::empty());
        assert(out@.to_multiset().add(rest@.to_multiset()) =~= out@.to_multiset());
    }
    out
}

} // verus!
