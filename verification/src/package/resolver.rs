//! Namespace and prefix resolution for Dolfin packages.

use vstd::prelude::*;

use crate::ast::{
    copy_strings_range, declaration_name, join_seq, qn_key, texts, texts_start_with, Declaration,
    OntologyFile as ParsedOntologyFile, PrefixDecl, QualifiedName,
};
use crate::comment::CommentMap;
use crate::error::Span;
use crate::package::discovery::{
    ascii_lower_seq, lemma_ascii_lower_valid, lemma_path_of_parts, namespace_of_path, valid_namespace_part,
    DiscoveredFile,
};
use crate::package::{find_namespace, find_namespace_exec, OntologyFile, PackageError, PrefixMap};
use crate::text::{contains_seq, contains_str, push_str, str_eq, string_from_chars};

verus! {

/// The identity of a namespace: the texts of its parts, whether it is
/// prefixed, and its span.
pub type NsKey = (Seq<Seq<char>>, bool, Option<Span>);

/// The identity of `a.join(b)`.
pub open spec fn join_key(a: QualifiedName, b: QualifiedName) -> NsKey {
    (
        texts(a.parts@) + texts(b.parts@),
        false,
        match (a.span, b.span) {
            (Some(x), Some(y)) => Some(x.spec_merge(y)),
            _ => None,
        },
    )
}

/// The identities of the namespaces of an index.
pub open spec fn index_keys(index: Seq<(QualifiedName, String)>) -> Seq<NsKey> {
    index.map_values(|e: (QualifiedName, String)| qn_key(e.0))
}

/// The identities of the namespaces of a prefix map.
pub open spec fn keyed(m: Map<Seq<char>, QualifiedName>) -> Map<Seq<char>, NsKey> {
    Map::new(|a: Seq<char>| m.contains_key(a), |a: Seq<char>| qn_key(m[a]))
}

/// What a prefix path resolves to:
/// 1. a single part holding `://` (a URI) stands for itself;
/// 2. a namespace of the index stands for itself;
/// 3. a single part that is a local alias stands for the alias's namespace;
/// 4. the path under the base namespace, when that is in the index;
/// otherwise nothing.
pub open spec fn single_prefix(
    path: QualifiedName,
    base: QualifiedName,
    index: Seq<NsKey>,
    aliases: Map<Seq<char>, NsKey>,
) -> Option<NsKey> {
    if path.parts@.len() == 1 && contains_seq(path.parts@[0]@, "://"@) {
        Some(qn_key(path))
    } else if index.contains(qn_key(path)) {
        Some(qn_key(path))
    } else if path.parts@.len() == 1 && aliases.contains_key(path.parts@[0]@) {
        Some(aliases[path.parts@[0]@])
    } else if index.contains(join_key(base, path)) {
        Some(join_key(base, path))
    } else {
        None
    }
}

/// A prefix path that names a namespace of the index resolves to that very
/// namespace; and whatever a prefix path resolves to is a namespace of the
/// index, unless the path is a URI (which stands for itself) or a local alias
/// (which stands for its namespace).
pub proof fn lemma_prefix_resolution_in_index(
    path: QualifiedName,
    base: QualifiedName,
    index: Seq<NsKey>,
    aliases: Map<Seq<char>, NsKey>,
)
    ensures
        index.contains(qn_key(path)) ==> single_prefix(path, base, index, aliases) == Some(qn_key(path)),
        single_prefix(path, base, index, aliases) matches Some(k) ==> index.contains(k) || (k == qn_key(path)
            && path.parts@.len() == 1 && contains_seq(path.parts@[0]@, "://"@)) || (path.parts@.len() == 1
            && aliases.contains_key(path.parts@[0]@) && k == aliases[path.parts@[0]@]),
{
}

/// Whether the index holds the namespace `q`.
fn index_contains(index: &Vec<(QualifiedName, String)>, q: &QualifiedName) -> (r: bool)
    ensures
        r == index_keys(index@).contains(qn_key(*q)),
{
    let mut i: usize = 0;
    while i < index.len()
        invariant
            0 <= i <= index@.len(),
            forall|k: int| 0 <= k < i ==> qn_key((#[trigger] index@[k]).0) != qn_key(*q),
        decreases index@.len() - i,
    {
        if index[i].0.same(q) {
            proof {
                assert(index_keys(index@)[i as int] == qn_key(*q));
            }
            return true;
        }
        i = i + 1;
    }
    proof {
        if index_keys(index@).contains(qn_key(*q)) {
            let k = choose|k: int| 0 <= k < index_keys(index@).len() && index_keys(index@)[k] == qn_key(*q);
            assert(qn_key(index@[k].0) == qn_key(*q));
        }
    }
    false
}

/// Resolve a single prefix path to a full namespace.
///
/// Resolution order:
/// 1. If it's a URI (a single part holding `://`), it stands for itself
/// 2. If it's already a full path that exists in the index, use it
/// 3. If it's a relative path (single name), look up in local alias index
/// 4. Otherwise, prepend base namespace and try again
pub fn resolve_single_prefix(
    path: &QualifiedName,
    base_namespace: &QualifiedName,
    namespace_index: &Vec<(QualifiedName, String)>,
    local_alias_index: &PrefixMap,
) -> (r: Option<QualifiedName>)
    ensures
        r matches Some(q) ==> single_prefix(
            *path,
            *base_namespace,
            index_keys(namespace_index@),
            keyed(local_alias_index@),
        ) == Some(qn_key(q)),
        r is None ==> single_prefix(
            *path,
            *base_namespace,
            index_keys(namespace_index@),
            keyed(local_alias_index@),
        ) is None,
{
    if path.parts.len() == 1 && contains_str(path.parts[0].as_str(), "://") {
        return Some(path.copy());
    }
    if index_contains(namespace_index, path) {
        return Some(path.copy());
    }
    if path.parts.len() == 1 {
        match local_alias_index.get(path.parts[0].as_str()) {
            Some(full) => {
                return Some(full.copy());
            },
            None => {},
        }
    }
    let with_base = base_namespace.join(path);
    proof {
        assert(texts(with_base.parts@) =~= texts(base_namespace.parts@) + texts(path.parts@));
        assert(qn_key(with_base) == join_key(*base_namespace, *path));
    }
    if index_contains(namespace_index, &with_base) {
        return Some(with_base);
    }
    None
}

/// The identities that the prefixes resolve to, by alias; a later prefix with
/// the same alias replaces an earlier one.
pub open spec fn resolved_map(
    prefixes: Seq<PrefixDecl>,
    base: QualifiedName,
    index: Seq<NsKey>,
    aliases: Map<Seq<char>, NsKey>,
) -> Map<Seq<char>, NsKey>
    decreases prefixes.len(),
{
    if prefixes.len() == 0 {
        Map::empty()
    } else {
        let p = prefixes.last();
        resolved_map(prefixes.drop_last(), base, index, aliases).insert(
            p.alias@,
            single_prefix(p.path, base, index, aliases).unwrap(),
        )
    }
}

/// Every prefix resolves.
pub open spec fn all_resolve(
    prefixes: Seq<PrefixDecl>,
    base: QualifiedName,
    index: Seq<NsKey>,
    aliases: Map<Seq<char>, NsKey>,
) -> bool {
    forall|i: int| 0 <= i < prefixes.len() ==> (#[trigger] single_prefix(prefixes[i].path, base, index, aliases)) is Some
}

/// `i` is the first prefix that does not resolve.
pub open spec fn first_unresolved(
    prefixes: Seq<PrefixDecl>,
    base: QualifiedName,
    index: Seq<NsKey>,
    aliases: Map<Seq<char>, NsKey>,
    i: int,
) -> bool {
    &&& 0 <= i < prefixes.len()
    &&& single_prefix(prefixes[i].path, base, index, aliases) is None
    &&& all_resolve(prefixes.subrange(0, i), base, index, aliases)
}

/// The error for the prefix `p` that does not resolve in the file `path`.
pub open spec fn unresolved_error(e: PackageError, p: PrefixDecl, path: Seq<char>) -> bool {
    e matches PackageError::UnresolvedPrefix { prefix, path: at } && prefix@ == p.path.full_text() && at@ == path
}

/// Resolve prefix declarations to full namespaces.
pub fn resolve_prefixes(
    prefixes: &Vec<PrefixDecl>,
    base_namespace: &QualifiedName,
    namespace_index: &Vec<(QualifiedName, String)>,
    local_alias_index: &PrefixMap,
    file_path: &str,
) -> (r: Result<PrefixMap, PackageError>)
    ensures
        ({
            let ix = index_keys(namespace_index@);
            let al = keyed(local_alias_index@);
            &&& r matches Ok(m) ==> all_resolve(prefixes@, *base_namespace, ix, al) && keyed(m@)
                == resolved_map(prefixes@, *base_namespace, ix, al)
            &&& r matches Err(e) ==> exists|i: int|
                #[trigger] first_unresolved(prefixes@, *base_namespace, ix, al, i) && unresolved_error(
                    e,
                    prefixes@[i],
                    file_path@,
                )
        }),
{
    let ghost ix = index_keys(namespace_index@);
    let ghost al = keyed(local_alias_index@);
    let mut resolved = PrefixMap::new();
    let mut i: usize = 0;
    proof {
        assert(keyed(resolved@) =~= resolved_map(prefixes@.subrange(0, 0), *base_namespace, ix, al));
    }
    while i < prefixes.len()
        invariant
            0 <= i <= prefixes@.len(),
            ix == index_keys(namespace_index@),
            al == keyed(local_alias_index@),
            all_resolve(prefixes@.subrange(0, i as int), *base_namespace, ix, al),
            keyed(resolved@) == resolved_map(prefixes@.subrange(0, i as int), *base_namespace, ix, al),
        decreases prefixes@.len() - i,
    {
        let prefix = &prefixes[i];
        match resolve_single_prefix(&prefix.path, base_namespace, namespace_index, local_alias_index) {
            Some(full) => {
                let ghost before = resolved@;
                resolved.insert(prefix.alias.clone(), full);
                proof {
                    let ps = prefixes@.subrange(0, i + 1);
                    assert(ps.drop_last() =~= prefixes@.subrange(0, i as int));
                    assert(ps.last() == prefixes@[i as int]);
                    assert(keyed(resolved@) =~= resolved_map(ps, *base_namespace, ix, al));
                    assert forall|j: int| 0 <= j < ps.len() implies (#[trigger] single_prefix(ps[j].path, *base_namespace, ix, al)) is Some by {
                        if j < i {
                            assert(ps[j] == prefixes@.subrange(0, i as int)[j]);
                        }
                    }
                }
            },
            None => {
                let name = prefix.path.full();
                let e = PackageError::UnresolvedPrefix { prefix: name, path: String::from_str(file_path) };
                proof {
                    assert(first_unresolved(prefixes@, *base_namespace, ix, al, i as int));
                }
                return Err(e);
            },
        }
        i = i + 1;
    }
    proof {
        assert(prefixes@.subrange(0, prefixes@.len() as int) =~= prefixes@);
    }
    Ok(resolved)
}

/// A parsed ontology file of a package, with where it was found and its comments.
pub type ParsedFile = (DiscoveredFile, ParsedOntologyFile, CommentMap);

/// The identities of the files' full namespaces: the base joined with the
/// namespace derived from each file's path.
pub open spec fn file_keys(base: QualifiedName, files: Seq<ParsedFile>) -> Seq<NsKey> {
    files.map_values(|f: ParsedFile| join_key(base, f.0.derived_namespace))
}

/// The last part of a namespace identity, or empty.
pub open spec fn last_text(k: NsKey) -> Seq<char> {
    if k.0.len() > 0 {
        k.0.last()
    } else {
        Seq::<char>::empty()
    }
}

/// The local aliases: each namespace under its last part; of namespaces that
/// share a last part, the later one.
pub open spec fn alias_keys(keys: Seq<NsKey>) -> Map<Seq<char>, NsKey>
    decreases keys.len(),
{
    if keys.len() == 0 {
        Map::empty()
    } else {
        alias_keys(keys.drop_last()).insert(last_text(keys.last()), keys.last())
    }
}

/// `(i, j)` is the first repeated namespace: `j` is the first file whose
/// namespace an earlier file has, and `i` the first of those earlier files.
pub open spec fn first_duplicate(keys: Seq<NsKey>, i: int, j: int) -> bool {
    &&& 0 <= i < j < keys.len()
    &&& keys[i] == keys[j]
    &&& forall|a: int, b: int| 0 <= a < b < j ==> keys[a] != keys[b]
    &&& forall|a: int| 0 <= a < i ==> keys[a] != keys[j]
}

/// The error for the first repeated namespace: its name, and the paths of
/// the first file and of the repeating file.
pub open spec fn duplicate_error(keys: Seq<NsKey>, files: Seq<ParsedFile>, e: PackageError) -> bool {
    e matches PackageError::DuplicateDefinition { name, path1, path2 } && exists|i: int, j: int|
        #[trigger] first_duplicate(keys, i, j) && name@ == join_seq(keys[j].0, "."@) && path1@
            == files[i].0.absolute_path@ && path2@ == files[j].0.absolute_path@
}

/// The namespaces are all different.
pub open spec fn no_duplicates(keys: Seq<NsKey>) -> bool {
    forall|a: int, b: int| 0 <= a < b < keys.len() ==> keys[a] != keys[b]
}

/// Every prefix of every file resolves.
pub open spec fn package_resolves(base: QualifiedName, files: Seq<ParsedFile>) -> bool {
    let keys = file_keys(base, files);
    forall|k: int| 0 <= k < files.len() ==> #[trigger] all_resolve(files[k].1.prefixes@, base, keys, alias_keys(keys))
}

/// The error for the first prefix, in file order, that does not resolve.
pub open spec fn first_unresolved_in_package(base: QualifiedName, files: Seq<ParsedFile>, e: PackageError) -> bool {
    let keys = file_keys(base, files);
    exists|k: int, i: int|
        #![trigger first_unresolved(files[k].1.prefixes@, base, keys, alias_keys(keys), i)]
        0 <= k < files.len() && (forall|j: int|
            0 <= j < k ==> #[trigger] all_resolve(files[j].1.prefixes@, base, keys, alias_keys(keys)))
            && first_unresolved(files[k].1.prefixes@, base, keys, alias_keys(keys), i) && unresolved_error(
            e,
            files[k].1.prefixes@[i],
            files[k].0.absolute_path@,
        )
}

/// `r` is what resolving `files` against the base namespace `base` gives:
/// a duplicate namespace is refused, else the first prefix that does not
/// resolve is refused, else each file comes with its full namespace and its
/// resolved prefixes, in order.
pub open spec fn resolution_of(
    base: QualifiedName,
    files: Seq<ParsedFile>,
    r: Result<Vec<(QualifiedName, OntologyFile)>, PackageError>,
) -> bool {
    let keys = file_keys(base, files);
    &&& r matches Err(e) ==> (e is DuplicateDefinition ==> duplicate_error(keys, files, e))
    &&& !no_duplicates(keys) ==> (r matches Err(PackageError::DuplicateDefinition { .. }))
    &&& no_duplicates(keys) ==> (r matches Err(e) ==> first_unresolved_in_package(base, files, e))
    &&& r matches Ok(v) ==> {
        &&& no_duplicates(keys)
        &&& package_resolves(base, files)
        &&& v@.len() == files.len()
        &&& forall|k: int|
            0 <= k < v@.len() ==> {
                let (ns, o) = #[trigger] v@[k];
                let (d, p, c) = files[k];
                &&& qn_key(ns) == keys[k]
                &&& qn_key(o.namespace) == keys[k]
                &&& o.relative_path == d.relative_path
                &&& o.absolute_path == d.absolute_path
                &&& o.iri_name == p.iri_name
                &&& o.ast == p
                &&& o.comment_map == c
                &&& keyed(o.resolved_prefixes@) == resolved_map(
                    p.prefixes@,
                    base,
                    keys,
                    alias_keys(keys),
                )
            }
    }
}

/// Resolve all ontology files in a package.
///
/// This function:
/// 1. Computes the full namespace for each file (the base namespace joined
///    with the namespace derived from the file's path) and rejects a
///    namespace that two files share
/// 2. Resolves the prefix declarations of each file to full namespaces
/// 3. Gives the files with their namespaces and resolved prefixes, in order
pub fn resolve_package(manifest: &crate::ast::PackageFile, files: Vec<ParsedFile>) -> (r: Result<
    Vec<(QualifiedName, OntologyFile)>,
    PackageError,
>)
    ensures
        resolution_of(manifest.name, files@, r),
{
    let base_namespace = &manifest.name;
    let ghost keys = file_keys(*base_namespace, files@);
    // First pass: build the namespace index
    let mut namespace_index: Vec<(QualifiedName, String)> = Vec::new();
    let mut i: usize = 0;
    while i < files.len()
        invariant
            *base_namespace == manifest.name,
            0 <= i <= files@.len(),
            keys == file_keys(*base_namespace, files@),
            namespace_index@.len() == i,
            index_keys(namespace_index@) == keys.subrange(0, i as int),
            forall|k: int| 0 <= k < i ==> (#[trigger] namespace_index@[k]).1 == files@[k].0.absolute_path,
            no_duplicates(keys.subrange(0, i as int)),
        decreases files@.len() - i,
    {
        let full_namespace = base_namespace.join(&files[i].0.derived_namespace);
        proof {
            assert(texts(full_namespace.parts@) =~= texts(base_namespace.parts@) + texts(files@[i as int].0.derived_namespace.parts@));
        }
        let mut j: usize = 0;
        while j < namespace_index.len()
            invariant
                *base_namespace == manifest.name,
            *base_namespace == manifest.name,
                0 <= j <= namespace_index@.len() == i,
                i < files@.len(),
                keys == file_keys(*base_namespace, files@),
                qn_key(full_namespace) == keys[i as int],
                index_keys(namespace_index@) == keys.subrange(0, i as int),
                forall|k: int| 0 <= k < i ==> (#[trigger] namespace_index@[k]).1 == files@[k].0.absolute_path,
                no_duplicates(keys.subrange(0, i as int)),
                forall|k: int| 0 <= k < j ==> keys[k] != keys[i as int],
            decreases namespace_index@.len() - j,
        {
            if namespace_index[j].0.same(&full_namespace) {
                let name = full_namespace.full();
                let e = PackageError::DuplicateDefinition {
                    name,
                    path1: namespace_index[j].1.clone(),
                    path2: files[i].0.absolute_path.clone(),
                };
                proof {
                    assert(index_keys(namespace_index@)[j as int] == keys[j as int]);
                    assert(name@ == join_seq(keys[i as int].0, "."@));
                    assert(e->path1@ == files@[j as int].0.absolute_path@);
                    assert(e->path2@ == files@[i as int].0.absolute_path@);
                    assert(first_duplicate(keys, j as int, i as int)) by {
                        assert forall|a: int, b: int| 0 <= a < b < i implies keys[a] != keys[b] by {
                            assert(keys.subrange(0, i as int)[a] == keys[a]);
                            assert(keys.subrange(0, i as int)[b] == keys[b]);
                        }
                    }
                }
                proof {
                    assert(duplicate_error(keys, files@, e));
                }
                return Err(e);
            }
            proof {
                assert(index_keys(namespace_index@)[j as int] == keys[j as int]);
            }
            j = j + 1;
        }
        let ghost before = namespace_index@;
        namespace_index.push((full_namespace, files[i].0.absolute_path.clone()));
        proof {
            assert(index_keys(namespace_index@) =~= keys.subrange(0, i + 1));
            let ks = keys.subrange(0, i + 1);
            assert forall|a: int, b: int| 0 <= a < b < i + 1 implies #[trigger] ks[a] != #[trigger] ks[b] by {
                if b < i {
                    assert(keys.subrange(0, i as int)[a] == keys[a]);
                    assert(keys.subrange(0, i as int)[b] == keys[b]);
                }
            }
        }
        i = i + 1;
    }
    proof {
        assert(keys.subrange(0, files@.len() as int) =~= keys);
        assert(index_keys(namespace_index@) == keys);
    }
    // Local aliases: last part -> full namespace
    let mut local_alias_index = PrefixMap::new();
    let mut a: usize = 0;
    proof {
        assert(keyed(local_alias_index@) =~= alias_keys(keys.subrange(0, 0)));
    }
    while a < namespace_index.len()
        invariant
            *base_namespace == manifest.name,
            0 <= a <= namespace_index@.len(),
            index_keys(namespace_index@) == keys,
            keyed(local_alias_index@) == alias_keys(keys.subrange(0, a as int)),
        decreases namespace_index@.len() - a,
    {
        let ns = &namespace_index[a].0;
        let last = ns.last();
        let ghost before = local_alias_index@;
        local_alias_index.insert(last, ns.copy());
        proof {
            let ks = keys.subrange(0, a + 1);
            assert(ks.drop_last() =~= keys.subrange(0, a as int));
            assert(ks.last() == keys[a as int]);
            assert(keys[a as int] == qn_key(namespace_index@[a as int].0));
            assert(texts(ns.parts@).len() == ns.parts@.len());
            if ns.parts@.len() > 0 {
                assert(texts(ns.parts@).last() == ns.parts@.last()@);
            }
            assert(keyed(local_alias_index@) =~= alias_keys(ks));
        }
        a = a + 1;
    }
    proof {
        assert(keys.subrange(0, keys.len() as int) =~= keys);
    }
    // Second pass: resolve prefixes and build the final ontologies
    let ghost all_files = files@;
    let _n = files.len();
    let mut rest = files;
    let mut ontologies: Vec<(QualifiedName, OntologyFile)> = Vec::new();
    let mut k: usize = 0;
    while rest.len() > 0
        invariant
            *base_namespace == manifest.name,
            k + rest@.len() == all_files.len(),
            all_files.len() <= usize::MAX,
            all_files == files@,
            rest@ == all_files.subrange(k as int, all_files.len() as int),
            keys == file_keys(*base_namespace, all_files),
            no_duplicates(keys),
            index_keys(namespace_index@) == keys,
            keyed(local_alias_index@) == alias_keys(keys),
            ontologies@.len() == k,
            forall|j: int|
                0 <= j < k ==> #[trigger] all_resolve(all_files[j].1.prefixes@, *base_namespace, keys, alias_keys(keys)),
            forall|j: int|
                0 <= j < k ==> {
                    let (ns, o) = #[trigger] ontologies@[j];
                    let (d, p, c) = all_files[j];
                    &&& qn_key(ns) == keys[j]
                    &&& qn_key(o.namespace) == keys[j]
                    &&& o.relative_path == d.relative_path
                    &&& o.absolute_path == d.absolute_path
                    &&& o.iri_name == p.iri_name
                    &&& o.ast == p
                    &&& o.comment_map == c
                    &&& keyed(o.resolved_prefixes@) == resolved_map(p.prefixes@, *base_namespace, keys, alias_keys(keys))
                },
        decreases rest@.len(),
    {
        let (discovered, parsed, comment_map) = rest.remove(0);
        proof {
            assert(all_files[k as int] == (discovered, parsed, comment_map));
            assert(rest@ =~= all_files.subrange(k + 1, all_files.len() as int));
            assert(keys[k as int] == join_key(*base_namespace, discovered.derived_namespace));
        }
        let full_namespace = base_namespace.join(&discovered.derived_namespace);
        proof {
            assert(texts(full_namespace.parts@) =~= texts(base_namespace.parts@) + texts(discovered.derived_namespace.parts@));
        }
        let resolved_prefixes = match resolve_prefixes(
            &parsed.prefixes,
            base_namespace,
            &namespace_index,
            &local_alias_index,
            discovered.absolute_path.as_str(),
        ) {
            Ok(m) => m,
            Err(e) => {
                proof {
                    let i = choose|i: int|
                        #[trigger] first_unresolved(parsed.prefixes@, *base_namespace, keys, alias_keys(keys), i)
                            && unresolved_error(e, parsed.prefixes@[i], discovered.absolute_path@);
                    assert(first_unresolved(all_files[k as int].1.prefixes@, *base_namespace, keys, alias_keys(keys), i));
                    assert(e is UnresolvedPrefix);
                    assert(first_unresolved_in_package(*base_namespace, files@, e));
                }
                return Err(e);
            },
        };
        let iri_name = match &parsed.iri_name {
            Some(v) => Some(v.copy()),
            None => None,
        };
        let namespace = full_namespace.copy();
        let ontology = OntologyFile {
            relative_path: discovered.relative_path,
            absolute_path: discovered.absolute_path,
            namespace,
            iri_name,
            resolved_prefixes,
            ast: parsed,
            comment_map,
        };
        ontologies.push((full_namespace, ontology));
        k = k + 1;
    }
    proof {
        assert forall|j: int| 0 <= j < all_files.len() implies #[trigger] all_resolve(all_files[j].1.prefixes@, *base_namespace, keys, alias_keys(keys)) by {
        }
    }
    Ok(ontologies)
}

/// Some declaration declares `name`.
pub open spec fn declares(decls: Seq<Declaration>, name: Seq<char>) -> bool {
    exists|i: int| 0 <= i < decls.len() && declaration_name(#[trigger] decls[i]) == name
}

/// The identity of the namespace `ns` joined with the names `rest`.
pub open spec fn extend_key(ns: NsKey, rest: Seq<Seq<char>>) -> NsKey {
    (ns.0 + rest, false, None)
}

/// What a type reference resolves to:
/// 1. a single name declared in the current namespace's ontology: that name
///    in the current namespace;
/// 2. a prefixed name `alias:Local`: the alias's namespace extended with the
///    rest (nothing when the alias is unknown);
/// 3. a dotted name whose first part is an alias: the alias's namespace
///    extended with the rest;
/// 4. a namespace of the package: itself;
/// otherwise nothing.
pub open spec fn type_ref_key(
    t: QualifiedName,
    current: QualifiedName,
    prefixes: Map<Seq<char>, NsKey>,
    os: Seq<(QualifiedName, OntologyFile)>,
) -> Option<NsKey> {
    let rest = texts(t.parts@).subrange(1, t.parts@.len() as int);
    if t.parts@.len() == 1 && (find_namespace(os, current) matches Some(i) && declares(
        os[i].1.ast.declarations@,
        t.parts@[0]@,
    )) {
        Some(join_key(current, t))
    } else if t.is_prefixed {
        if prefixes.contains_key(t.parts@[0]@) {
            Some(extend_key(prefixes[t.parts@[0]@], rest))
        } else {
            None
        }
    } else if t.parts@.len() >= 2 && prefixes.contains_key(t.parts@[0]@) {
        Some(extend_key(prefixes[t.parts@[0]@], rest))
    } else if find_namespace(os, t) is Some {
        Some(qn_key(t))
    } else {
        None
    }
}

/// A reference through an alias resolves into the alias's namespace: for
/// `alias:Local`, or a dotted name of two or more parts whose first part is
/// an alias, the result is the alias's namespace followed by the reference's
/// names after the alias, ending with the reference's last name; the alias
/// itself is not among the added names.
pub proof fn lemma_alias_reference_resolves_into_alias(
    t: QualifiedName,
    current: QualifiedName,
    prefixes: Map<Seq<char>, NsKey>,
    os: Seq<(QualifiedName, OntologyFile)>,
)
    requires
        t.parts@.len() >= 2,
        prefixes.contains_key(t.parts@[0]@),
    ensures
        ({
            let n = prefixes[t.parts@[0]@].0;
            let names = texts(t.parts@);
            type_ref_key(t, current, prefixes, os) matches Some(k) && k.0.len() == n.len() + names.len() - 1
                && k.0.subrange(0, n.len() as int) == n && (forall|j: int|
                1 <= j < names.len() ==> k.0[n.len() + j - 1] == #[trigger] names[j]) && k.0.last() == names.last()
        }),
{
}

/// A single name declared in the current namespace's ontology resolves to
/// that name in the current namespace; a prefixed name whose alias is
/// unknown resolves to nothing; and a reference that is neither of these
/// nor goes through an alias resolves only to itself, when it names a
/// namespace of the package.
pub proof fn lemma_type_ref_other_cases(
    t: QualifiedName,
    current: QualifiedName,
    prefixes: Map<Seq<char>, NsKey>,
    os: Seq<(QualifiedName, OntologyFile)>,
)
    ensures
        t.parts@.len() == 1 && (find_namespace(os, current) matches Some(i) && declares(
            os[i].1.ast.declarations@,
            t.parts@[0]@,
        )) ==> type_ref_key(t, current, prefixes, os) == Some(
            (texts(current.parts@).push(t.parts@[0]@), false, match (current.span, t.span) {
                (Some(x), Some(y)) => Some(x.spec_merge(y)),
                _ => None,
            }),
        ),
        t.parts@.len() >= 2 && t.is_prefixed && !prefixes.contains_key(t.parts@[0]@) ==> type_ref_key(
            t,
            current,
            prefixes,
            os,
        ) is None,
        t.parts@.len() >= 2 && !prefixes.contains_key(t.parts@[0]@) && !t.is_prefixed ==> (type_ref_key(
            t,
            current,
            prefixes,
            os,
        ) matches Some(k) ==> k == qn_key(t) && find_namespace(os, t) is Some),
{
    if t.parts@.len() == 1 {
        assert(texts(current.parts@) + texts(t.parts@) =~= texts(current.parts@).push(t.parts@[0]@));
    }
}

/// Whether some declaration of the ontology declares `name`.
fn declares_exec(decls: &Vec<Declaration>, name: &str) -> (r: bool)
    ensures
        r == declares(decls@, name@),
{
    let mut i: usize = 0;
    while i < decls.len()
        invariant
            0 <= i <= decls@.len(),
            forall|k: int| 0 <= k < i ==> declaration_name(#[trigger] decls@[k]) != name@,
        decreases decls@.len() - i,
    {
        let n = decls[i].name();
        if str_eq(n.as_str(), name) {
            return true;
        }
        i = i + 1;
    }
    false
}

/// Resolve a type reference within an ontology file, to the full namespace
/// of the type.
pub fn resolve_type_ref(
    reference: &QualifiedName,
    current_namespace: &QualifiedName,
    resolved_prefixes: &PrefixMap,
    all_namespaces: &Vec<(QualifiedName, OntologyFile)>,
) -> (r: Option<QualifiedName>)
    requires
        reference.is_prefixed ==> reference.parts@.len() >= 1,
    ensures
        r matches Some(q) ==> type_ref_key(
            *reference,
            *current_namespace,
            keyed(resolved_prefixes@),
            all_namespaces@,
        ) == Some(qn_key(q)),
        r is None ==> type_ref_key(
            *reference,
            *current_namespace,
            keyed(resolved_prefixes@),
            all_namespaces@,
        ) is None,
{
    let n = reference.parts.len();
    if n == 1 {
        match find_namespace_exec(all_namespaces, current_namespace) {
            Some(i) => {
                if declares_exec(&all_namespaces[i].1.ast.declarations, reference.parts[0].as_str()) {
                    let q = current_namespace.join(reference);
                    proof {
                        assert(texts(q.parts@) =~= texts(current_namespace.parts@) + texts(reference.parts@));
                    }
                    return Some(q);
                }
            },
            None => {},
        }
    }
    if reference.is_prefixed || n >= 2 {
        match resolved_prefixes.get(reference.parts[0].as_str()) {
            Some(ns) => {
                let rest = QualifiedName::new(copy_strings_range(reference.parts.as_slice(), 1, n), None);
                let q = ns.join(&rest);
                proof {
                    assert(texts(q.parts@) =~= texts(ns.parts@) + texts(reference.parts@).subrange(1, n as int));
                }
                return Some(q);
            },
            None => {
                if reference.is_prefixed {
                    return None;
                }
            },
        }
    }
    match find_namespace_exec(all_namespaces, reference) {
        Some(_) => Some(reference.copy()),
        None => None,
    }
}

/// The Unicode lowercase of a text, as `str::to_lowercase` gives it.
pub uninterp spec fn lowercase(s: Seq<char>) -> Seq<char>;

/// `str::to_lowercase`: the lowercase equivalent of `s` by the Unicode
/// lowercase mapping. An ASCII text maps to its ASCII lowercase: the Unicode
/// mapping of the ASCII capitals `A`-`Z` is `a`-`z`, and every other ASCII
/// character maps to itself.
#[verifier::external_body]
fn to_lowercase(s: &str) -> (r: String)
    ensures
        r@ == lowercase(s@),
        (forall|i: int| 0 <= i < s@.len() ==> (#[trigger] s@[i] as u32) < 128) ==> r@
            == crate::package::discovery::ascii_lower_seq(s@),
{
    s.to_lowercase()
}

/// The lowercase texts of a list of names.
pub open spec fn lowercase_all(v: Seq<Seq<char>>) -> Seq<Seq<char>> {
    v.map_values(|x: Seq<char>| lowercase(x))
}

/// The ASCII lowercase texts of a list of names.
pub open spec fn ascii_lower_all(v: Seq<Seq<char>>) -> Seq<Seq<char>> {
    v.map_values(|x: Seq<char>| ascii_lower_seq(x))
}

/// All characters of the text are ASCII.
pub open spec fn all_ascii(s: Seq<char>) -> bool {
    forall|i: int| 0 <= i < s.len() ==> (#[trigger] s[i] as u32) < 128
}

/// Lowercases the strings `v[a..b]`.
fn lowercase_range(v: &Vec<String>, a: usize, b: usize) -> (r: Vec<String>)
    requires
        a <= b <= v@.len(),
    ensures
        texts(r@) == lowercase_all(texts(v@).subrange(a as int, b as int)),
        (forall|i: int| a <= i < b ==> all_ascii(#[trigger] v@[i]@)) ==> texts(r@) == ascii_lower_all(
            texts(v@).subrange(a as int, b as int),
        ),
{
    let mut out: Vec<String> = Vec::new();
    let mut k = a;
    while k < b
        invariant
            a <= k <= b <= v@.len(),
            out@.len() == k - a,
            texts(out@) == lowercase_all(texts(v@).subrange(a as int, k as int)),
            (forall|i: int| a <= i < b ==> all_ascii(#[trigger] v@[i]@)) ==> texts(out@) == ascii_lower_all(
                texts(v@).subrange(a as int, k as int),
            ),
        decreases b - k,
    {
        let ghost o0 = out@;
        let l = to_lowercase(v[k].as_str());
        out.push(l);
        proof {
            let t = lowercase_all(texts(v@).subrange(a as int, k + 1));
            assert forall|i: int| 0 <= i < t.len() implies texts(out@)[i] == t[i] by {
                if i < o0.len() {
                    assert(out@[i] == o0[i]);
                    assert(texts(out@)[i] == texts(o0)[i]);
                    assert(texts(v@).subrange(a as int, k + 1)[i] == texts(v@).subrange(a as int, k as int)[i]);
                } else {
                    assert(out@[i] == l);
                    assert(texts(v@).subrange(a as int, k + 1)[i] == texts(v@)[k as int]);
                }
            }
            assert(texts(out@) =~= t);
            if forall|i: int| a <= i < b ==> all_ascii(#[trigger] v@[i]@) {
                assert(all_ascii(v@[k as int]@));
                let u = ascii_lower_all(texts(v@).subrange(a as int, k + 1));
                assert forall|i: int| 0 <= i < u.len() implies texts(out@)[i] == u[i] by {
                    if i < o0.len() {
                        assert(out@[i] == o0[i]);
                        assert(texts(out@)[i] == texts(o0)[i]);
                        assert(texts(v@).subrange(a as int, k + 1)[i] == texts(v@).subrange(a as int, k as int)[i]);
                    } else {
                        assert(out@[i] == l);
                        assert(texts(v@).subrange(a as int, k + 1)[i] == texts(v@)[k as int]);
                    }
                }
                assert(texts(out@) =~= u);
            }
        }
        k = k + 1;
    }
    out
}

/// The identity of the namespace that a concept reference's prefix names:
/// through the alias when the reference is prefixed or its first part is an
/// alias (nothing when the alias is unknown), the rest of the prefix
/// lowercased; otherwise the lowercased prefix under the base namespace.
/// Nothing for a bare name.
pub open spec fn concept_namespace_key(
    reference: QualifiedName,
    base: QualifiedName,
    prefixes: Map<Seq<char>, NsKey>,
) -> Option<NsKey> {
    let parts = texts(reference.parts@);
    let n = parts.len();
    if n <= 1 {
        None
    } else {
        let first = parts[0];
        let rest = parts.subrange(1, n - 1);
        if reference.is_prefixed || prefixes.contains_key(first) {
            if prefixes.contains_key(first) {
                if rest.len() == 0 {
                    Some(prefixes[first])
                } else {
                    Some(extend_key(prefixes[first], lowercase_all(rest)))
                }
            } else {
                None
            }
        } else {
            Some((texts(base.parts@) + lowercase_all(parts.subrange(0, n - 1)), false, None))
        }
    }
}

/// [`concept_namespace_key`] where the names of the reference's prefix are
/// ASCII: lowercasing them is then ASCII lowercasing.
pub open spec fn ascii_namespace_key(
    reference: QualifiedName,
    base: QualifiedName,
    prefixes: Map<Seq<char>, NsKey>,
) -> Option<NsKey> {
    let parts = texts(reference.parts@);
    let n = parts.len();
    if n <= 1 {
        None
    } else {
        let first = parts[0];
        let rest = parts.subrange(1, n - 1);
        if reference.is_prefixed || prefixes.contains_key(first) {
            if prefixes.contains_key(first) {
                if rest.len() == 0 {
                    Some(prefixes[first])
                } else {
                    Some(extend_key(prefixes[first], ascii_lower_all(rest)))
                }
            } else {
                None
            }
        } else {
            Some((texts(base.parts@) + ascii_lower_all(parts.subrange(0, n - 1)), false, None))
        }
    }
}

/// The names of `k` without the leading names of `base`, when it starts with them.
pub open spec fn relative_names(k: NsKey, base: QualifiedName) -> Seq<Seq<char>> {
    let b = texts(base.parts@);
    if b.len() <= k.0.len() && k.0.subrange(0, b.len() as int) == b {
        k.0.subrange(b.len() as int, k.0.len() as int)
    } else {
        k.0
    }
}

/// The path of a new file for the namespace `k`: the names below the base
/// joined by `/`, or the last name when there is none below it, with `.dlf`.
pub open spec fn derived_path(k: NsKey, base: QualifiedName) -> Seq<char> {
    let rel = relative_names(k, base);
    if rel.len() == 0 {
        last_text(k) + ".dlf"@
    } else {
        join_seq(rel, "/"@) + ".dlf"@
    }
}

/// The reference's prefix names package directories: it has a prefix, is not
/// prefixed, its first part is no alias, and the parts of its prefix are
/// valid namespace parts.
pub open spec fn names_directories(reference: QualifiedName, prefixes: Map<Seq<char>, NsKey>) -> bool {
    &&& reference.parts@.len() >= 2
    &&& !reference.is_prefixed
    &&& !prefixes.contains_key(reference.parts@[0]@)
    &&& forall|i: int| 0 <= i < reference.parts@.len() - 1 ==> valid_namespace_part(#[trigger] reference.parts@[i]@)
}

/// The path `p` leads back to the namespace `ns`: `ns` starts with the base
/// namespace, and the namespace derived from `p` is the rest of `ns`.
pub open spec fn leads_back(p: Seq<char>, ns: QualifiedName, base: QualifiedName) -> bool {
    let b = texts(base.parts@);
    let n = texts(ns.parts@);
    &&& b.len() <= n.len()
    &&& n.subrange(0, b.len() as int) == b
    &&& namespace_of_path(p) == Ok::<Seq<Seq<char>>, Seq<char>>(n.subrange(b.len() as int, n.len() as int))
}

/// The `.dlf` file that a concept *declaration* should be written into.
#[derive(Debug, Clone)]
pub struct ConceptFileTarget {
    /// Path (relative to the package root) of the file the declaration belongs
    /// in, or `None` when it belongs in the *current* file.
    pub relative_path: Option<String>,
    /// Full resolved namespace of the target file, when it could be determined.
    pub namespace: Option<QualifiedName>,
    /// The concept's local name.
    pub concept_name: String,
    /// `true` when the target file already exists in the package.
    pub exists: bool,
}

/// Work out which file a concept reference should be declared in.
///
/// Mapping (the prefix names the file, the last component names the concept):
/// - `Animal`                 -> current file (`relative_path: None`)
/// - `biology.Animal`         -> `biology.dlf`
/// - `science.biology.Animal` -> `science/biology.dlf`
///
/// A prefixed reference (`ex:Animal`), or a dotted one whose first part is a
/// declared alias, goes through the alias's namespace. When the target file
/// already exists, `file_lookup` gives its real path; only a new file gets a
/// derived, lowercased path.
pub fn resolve_concept_file<F: Fn(&QualifiedName) -> Option<String>>(
    reference: &QualifiedName,
    base_namespace: &QualifiedName,
    resolved_prefixes: &PrefixMap,
    file_lookup: F,
) -> (r: ConceptFileTarget)
    requires
        forall|q: &QualifiedName| file_lookup.requires((q,)),
    ensures
        reference.parts@.len() > 0 ==> r.concept_name@ == reference.parts@.last()@,
        reference.parts@.len() == 0 ==> r.concept_name@ == Seq::<char>::empty(),
        match concept_namespace_key(*reference, *base_namespace, keyed(resolved_prefixes@)) {
            None => r.relative_path is None && r.namespace is None && !r.exists,
            Some(k) => match (r.namespace, r.relative_path) {
                (Some(ns), Some(p)) => qn_key(ns) == k && (if r.exists {
                    file_lookup.ensures((&ns,), Some(p))
                } else {
                    file_lookup.ensures((&ns,), None::<String>) && p@ == derived_path(k, *base_namespace)
                }),
                _ => false,
            },
        },
        names_directories(*reference, keyed(resolved_prefixes@)) && !r.exists ==> match (
            r.relative_path,
            r.namespace,
        ) {
            (Some(p), Some(ns)) => leads_back(p@, ns, *base_namespace),
            _ => false,
        },
        (forall|i: int| 0 <= i < reference.parts@.len() - 1 ==> all_ascii(#[trigger] reference.parts@[i]@))
            ==> concept_namespace_key(*reference, *base_namespace, keyed(resolved_prefixes@)) == ascii_namespace_key(
            *reference,
            *base_namespace,
            keyed(resolved_prefixes@),
        ),
{
    let concept_name = reference.last();
    let n = reference.parts.len();
    if n <= 1 {
        return ConceptFileTarget { relative_path: None, namespace: None, concept_name, exists: false };
    }
    let ghost parts = texts(reference.parts@);
    let first = reference.parts[0].as_str();
    let alias = resolved_prefixes.get(first);
    let namespace = if reference.is_prefixed || alias.is_some() {
        match alias {
            Some(alias_ns) => {
                if n == 2 {
                    Some(alias_ns.copy())
                } else {
                    let rest = QualifiedName::new(lowercase_range(&reference.parts, 1, n - 1), None);
                    let q = alias_ns.join(&rest);
                    proof {
                        if forall|i: int| 0 <= i < reference.parts@.len() - 1 ==> all_ascii(#[trigger] reference.parts@[i]@) {
                            assert(forall|i: int| 1 <= i < n - 1 ==> all_ascii(#[trigger] reference.parts@[i]@));
                            assert(lowercase_all(parts.subrange(1, n - 1)) == ascii_lower_all(parts.subrange(1, n - 1)));
                        }
                        assert(parts.subrange(1, n - 1) =~= texts(reference.parts@).subrange(1, n - 1));
                        assert(texts(q.parts@) =~= texts(alias_ns.parts@) + texts(rest.parts@));
                    }
                    Some(q)
                }
            },
            None => None,
        }
    } else {
        proof {
            if names_directories(*reference, keyed(resolved_prefixes@)) {
                assert forall|i: int| 0 <= i < n - 1 implies all_ascii(#[trigger] reference.parts@[i]@) by {
                    assert(valid_namespace_part(reference.parts@[i]@));
                    assert forall|j: int| 0 <= j < reference.parts@[i]@.len() implies (#[trigger] reference.parts@[i]@[j] as u32) < 128 by {
                        if j > 0 {
                            assert(crate::text::is_ident_char(reference.parts@[i]@[j]));
                        }
                    }
                }
            }
        }
        let path_ns = QualifiedName::new(lowercase_range(&reference.parts, 0, n - 1), None);
        let q = base_namespace.join(&path_ns);
        proof {
            if forall|i: int| 0 <= i < reference.parts@.len() - 1 ==> all_ascii(#[trigger] reference.parts@[i]@) {
                assert(lowercase_all(parts.subrange(0, n - 1)) == ascii_lower_all(parts.subrange(0, n - 1)));
            }
            assert(texts(q.parts@) =~= texts(base_namespace.parts@) + texts(path_ns.parts@));
        }
        Some(q)
    };
    let namespace = match namespace {
        Some(ns) => ns,
        None => {
            return ConceptFileTarget { relative_path: None, namespace: None, concept_name, exists: false };
        },
    };
    match file_lookup(&namespace) {
        Some(existing) => {
            return ConceptFileTarget {
                relative_path: Some(existing),
                namespace: Some(namespace),
                concept_name,
                exists: true,
            };
        },
        None => {},
    }
    let relative = namespace.strip_prefix(base_namespace);
    let mut d: Vec<char> = Vec::new();
    if relative.parts.len() == 0 {
        let l = namespace.last();
        push_str(&mut d, l.as_str());
    } else {
        let s = relative.full_slashed();
        push_str(&mut d, s.as_str());
    }
    push_str(&mut d, ".dlf");
    proof {
        let k = qn_key(namespace);
        let b = texts(base_namespace.parts@);
        if texts_start_with(namespace.parts@, base_namespace.parts@) {
            assert(texts(namespace.parts@.subrange(0, base_namespace.parts@.len() as int)) =~= k.0.subrange(0, b.len() as int));
            assert(texts(relative.parts@) =~= k.0.subrange(b.len() as int, k.0.len() as int));
        } else {
            if b.len() <= k.0.len() && k.0.subrange(0, b.len() as int) == b {
                assert(texts(namespace.parts@.subrange(0, base_namespace.parts@.len() as int)) =~= k.0.subrange(0, b.len() as int));
            }
        }
        assert(texts(relative.parts@).len() == relative.parts@.len());
        if namespace.parts@.len() > 0 {
            assert(texts(namespace.parts@).last() == namespace.parts@.last()@);
        }
        if names_directories(*reference, keyed(resolved_prefixes@)) {
            let low = ascii_lower_all(parts.subrange(0, n - 1));
            assert(k.0 == b + low);
            assert(k.0.subrange(0, b.len() as int) =~= b);
            assert(k.0.subrange(b.len() as int, k.0.len() as int) =~= low);
            assert forall|i: int| 0 <= i < low.len() implies valid_namespace_part(#[trigger] low[i]) && ascii_lower_seq(low[i]) == low[i] by {
                assert(parts[i] == reference.parts@[i]@);
                lemma_ascii_lower_valid(parts[i]);
            }
            lemma_path_of_parts(low);
        }
    }
    ConceptFileTarget {
        relative_path: Some(string_from_chars(d.as_slice())),
        namespace: Some(namespace),
        concept_name,
        exists: false,
    }
}

} // verus!
