//! Package loading and management for Dolfin.
//!
//! A Dolfin package is a directory containing a `package.dlf` manifest
//! and zero or more `.dlf` ontology files organized in subdirectories.

pub mod discovery;
pub mod resolver;

use vstd::prelude::*;

use crate::ast::{
    concept_defs, property_defs, rule_defs, qn_key, texts, ConceptDef, IriNameValue,
    OntologyFile as ParsedOntologyFile, PackageFile, PropertyDef, QualifiedName, RuleDef,
};
use crate::ast::join_seq;
use crate::comment::{built_from, Comment, CommentMap};
use crate::error::ParseError;
use crate::lexer::scan::lit_eq;
use crate::package::discovery::{components_of, file_name_of, namespace_of_path, path_components, path_to_namespace, DiscoveredFile};
use crate::package::resolver::{resolution_of, resolve_package, ParsedFile};
use crate::text::{chars_eq, chars_of};

use crate::package::resolver::{
    concept_namespace_key, derived_path, keyed, resolve_concept_file, ConceptFileTarget, NsKey,
};
use crate::text::{push_str, str_eq, string_from_chars};

verus! {

/// Errors that can occur during package operations. Paths are `/`-separated texts.
#[derive(Debug)]
pub enum PackageError {
    /// Package manifest (package.dlf) not found
    ManifestNotFound(String),
    /// I/O error while reading a file
    IoError {
        /// Path to the file that couldn't be read
        path: String,
        /// What the I/O error said
        message: String,
    },
    /// Parse error in a source file
    ParseError {
        /// Path to the file with the parse error
        path: String,
        /// The underlying parse error
        source: Box<ParseError>,
    },
    /// Invalid package structure
    InvalidStructure(String),
    /// Unresolved prefix reference
    UnresolvedPrefix {
        /// The unresolved prefix
        prefix: String,
        /// File containing the unresolved prefix
        path: String,
    },
    /// Circular dependency detected
    CircularDependency(String),
    /// Duplicate definition across files
    DuplicateDefinition {
        /// Name of the duplicate definition
        name: String,
        /// First file containing the definition
        path1: String,
        /// Second file containing the definition
        path2: String,
    },
}

/// The map that the entries give when inserted in order: a later entry for a
/// key replaces an earlier one.
pub open spec fn map_of_entries(es: Seq<(String, QualifiedName)>) -> Map<Seq<char>, QualifiedName>
    decreases es.len(),
{
    if es.len() == 0 {
        Map::empty()
    } else {
        map_of_entries(es.drop_last()).insert(es.last().0@, es.last().1)
    }
}

proof fn lemma_map_of_entries_tail(es: Seq<(String, QualifiedName)>, j: int, k: Seq<char>)
    requires
        0 <= j <= es.len(),
        forall|i: int| j <= i < es.len() ==> (#[trigger] es[i]).0@ != k,
    ensures
        map_of_entries(es).contains_key(k) == map_of_entries(es.subrange(0, j)).contains_key(k),
        map_of_entries(es).contains_key(k) ==> map_of_entries(es)[k] == map_of_entries(es.subrange(0, j))[k],
    decreases es.len() - j,
{
    if j < es.len() {
        let d = es.drop_last();
        assert forall|i: int| j <= i < d.len() implies (#[trigger] d[i]).0@ != k by {
            assert(d[i] == es[i]);
        }
        lemma_map_of_entries_tail(d, j, k);
        assert(d.subrange(0, j) =~= es.subrange(0, j));
    } else {
        assert(es.subrange(0, j) =~= es);
    }
}

/// A map from prefix aliases (texts) to namespaces; inserting an alias again
/// replaces its namespace.
#[derive(Debug, Clone)]
pub struct PrefixMap {
    entries: Vec<(String, QualifiedName)>,
}

impl PrefixMap {
    pub closed spec fn view(&self) -> Map<Seq<char>, QualifiedName> {
        map_of_entries(self.entries@)
    }

    /// An empty map.
    pub fn new() -> (r: Self)
        ensures
            r@ == Map::<Seq<char>, QualifiedName>::empty(),
    {
        PrefixMap { entries: Vec::new() }
    }

    /// Maps `key` to `value`.
    pub fn insert(&mut self, key: String, value: QualifiedName)
        ensures
            final(self)@ == old(self)@.insert(key@, value),
    {
        let ghost e0 = self.entries@;
        self.entries.push((key, value));
        proof {
            assert(self.entries@.drop_last() =~= e0);
        }
    }

    /// The namespace of `key`, if it has one.
    pub fn get(&self, key: &str) -> (r: Option<&QualifiedName>)
        ensures
            r matches Some(v) ==> self@.contains_key(key@) && *v == self@[key@],
            r is None ==> !self@.contains_key(key@),
    {
        let mut j: usize = self.entries.len();
        while j > 0
            invariant
                j <= self.entries@.len(),
                forall|i: int| j <= i < self.entries@.len() ==> (#[trigger] self.entries@[i]).0@ != key@,
            decreases j,
        {
            if str_eq(self.entries[j - 1].0.as_str(), key) {
                proof {
                    let es = self.entries@;
                    lemma_map_of_entries_tail(es, j as int, key@);
                    let t = es.subrange(0, j as int);
                    assert(t.drop_last() =~= es.subrange(0, j - 1));
                    assert(t.last() == es[j - 1]);
                }
                return Some(&self.entries[j - 1].1);
            }
            j = j - 1;
        }
        proof {
            lemma_map_of_entries_tail(self.entries@, 0, key@);
            assert(self.entries@.subrange(0, 0) =~= Seq::<(String, QualifiedName)>::empty());
        }
        None
    }

    /// Whether `key` has a namespace.
    pub fn contains_key(&self, key: &str) -> (r: bool)
        ensures
            r == self@.contains_key(key@),
    {
        self.get(key).is_some()
    }
}

/// A single ontology file within a package.
#[derive(Debug)]
pub struct OntologyFile {
    /// File path relative to package root
    pub relative_path: String,
    /// Absolute file path
    pub absolute_path: String,
    /// Resolved namespace for this file (derived from path)
    pub namespace: QualifiedName,
    /// IRI name override (from @iri_name annotation), if any
    pub iri_name: Option<IriNameValue>,
    /// Resolved prefix mappings (alias -> full namespace)
    pub resolved_prefixes: PrefixMap,
    /// Parsed AST
    pub ast: ParsedOntologyFile,
    /// Comments attached to AST nodes: enables plugin annotation processing.
    pub comment_map: CommentMap,
}

impl OntologyFile {
    /// The IRI segment name: the `@iri_name` override, else the last part of
    /// the namespace, else empty.
    pub open spec fn spec_iri_segment(&self) -> Seq<char> {
        match self.iri_name {
            Some(IriNameValue::AbsoluteUri(s)) => s@,
            Some(IriNameValue::LocalSegment(s)) => s@,
            None => if self.namespace.parts@.len() > 0 {
                self.namespace.parts@.last()@
            } else {
                Seq::<char>::empty()
            },
        }
    }

    /// Get the IRI segment name for this ontology.
    /// Uses the @iri_name override if present, otherwise the last part of the namespace.
    pub fn iri_segment(&self) -> (r: &str)
        ensures
            r@ == self.spec_iri_segment(),
    {
        match &self.iri_name {
            Some(v) => {
                proof {
                    assert(self.iri_name == Some(*v));
                }
                v.as_str()
            },
            None => {
                if self.namespace.parts.len() > 0 {
                    self.namespace.parts[self.namespace.parts.len() - 1].as_str()
                } else {
                    proof {
                        reveal_strlit("");
                    }
                    ""
                }
            },
        }
    }
}

/// A loaded and resolved Dolfin package.
#[derive(Debug)]
pub struct Package {
    /// Package manifest information
    pub manifest: PackageFile,
    /// Root directory of the package
    pub root: String,
    /// All ontology files, with their resolved namespaces
    pub ontologies: Vec<(QualifiedName, OntologyFile)>,
}

/// The index of the first entry whose namespace equals `ns`.
pub open spec fn find_namespace<T>(os: Seq<(QualifiedName, T)>, ns: QualifiedName) -> Option<int>
    decreases os.len(),
{
    if os.len() == 0 {
        None
    } else {
        match find_namespace(os.drop_last(), ns) {
            Some(i) => Some(i),
            None => if qn_key(os.last().0) == qn_key(ns) {
                Some(os.len() - 1)
            } else {
                None
            },
        }
    }
}

proof fn lemma_find_namespace<T>(os: Seq<(QualifiedName, T)>, ns: QualifiedName, j: int)
    requires
        0 <= j <= os.len(),
        forall|i: int| 0 <= i < j ==> qn_key((#[trigger] os[i]).0) != qn_key(ns),
    ensures
        find_namespace(os.subrange(0, j), ns) is None,
    decreases j,
{
    if j > 0 {
        lemma_find_namespace(os, ns, j - 1);
        assert(os.subrange(0, j).drop_last() =~= os.subrange(0, j - 1));
    }
}

proof fn lemma_find_namespace_hit<T>(os: Seq<(QualifiedName, T)>, ns: QualifiedName, j: int)
    requires
        0 <= j < os.len(),
        forall|i: int| 0 <= i < j ==> qn_key((#[trigger] os[i]).0) != qn_key(ns),
        qn_key(os[j].0) == qn_key(ns),
    ensures
        find_namespace(os, ns) == Some(j),
    decreases os.len(),
{
    if os.len() > j + 1 {
        lemma_find_namespace_hit(os.drop_last(), ns, j);
    } else {
        lemma_find_namespace(os, ns, j);
        assert(os.drop_last() =~= os.subrange(0, j));
    }
}

/// The index of the first entry whose namespace equals `ns`.
pub fn find_namespace_exec<T>(os: &Vec<(QualifiedName, T)>, ns: &QualifiedName) -> (r: Option<usize>)
    ensures
        r matches Some(i) ==> find_namespace(os@, *ns) == Some(i as int) && i < os@.len(),
        r is None ==> find_namespace(os@, *ns) is None,
{
    let mut i: usize = 0;
    while i < os.len()
        invariant
            0 <= i <= os@.len(),
            forall|k: int| 0 <= k < i ==> qn_key((#[trigger] os@[k]).0) != qn_key(*ns),
        decreases os@.len() - i,
    {
        if os[i].0.same(ns) {
            proof {
                lemma_find_namespace_hit(os@, *ns, i as int);
            }
            return Some(i);
        }
        i = i + 1;
    }
    proof {
        lemma_find_namespace(os@, *ns, os@.len() as int);
        assert(os@.subrange(0, os@.len() as int) =~= os@);
    }
    None
}

/// The concept definitions of all ontologies, with their namespaces, in order.
pub open spec fn package_concepts(os: Seq<(QualifiedName, OntologyFile)>) -> Seq<(QualifiedName, ConceptDef)>
    decreases os.len(),
{
    if os.len() == 0 {
        seq![]
    } else {
        let (ns, o) = os.last();
        package_concepts(os.drop_last()) + concept_defs(o.ast.declarations@).map_values(
            |c: ConceptDef| (ns, c),
        )
    }
}

/// The property definitions of all ontologies, with their namespaces, in order.
pub open spec fn package_properties(os: Seq<(QualifiedName, OntologyFile)>) -> Seq<(QualifiedName, PropertyDef)>
    decreases os.len(),
{
    if os.len() == 0 {
        seq![]
    } else {
        let (ns, o) = os.last();
        package_properties(os.drop_last()) + property_defs(o.ast.declarations@).map_values(
            |c: PropertyDef| (ns, c),
        )
    }
}

/// The rule definitions of all ontologies, with their namespaces, in order.
pub open spec fn package_rules(os: Seq<(QualifiedName, OntologyFile)>) -> Seq<(QualifiedName, RuleDef)>
    decreases os.len(),
{
    if os.len() == 0 {
        seq![]
    } else {
        let (ns, o) = os.last();
        package_rules(os.drop_last()) + rule_defs(o.ast.declarations@).map_values(
            |c: RuleDef| (ns, c),
        )
    }
}

/// The concepts with a `one of` list, with their namespaces, in order.
pub open spec fn enums_of(cs: Seq<(QualifiedName, ConceptDef)>) -> Seq<(QualifiedName, ConceptDef)>
    decreases cs.len(),
{
    if cs.len() == 0 {
        seq![]
    } else if cs.last().1.one_of is Some {
        enums_of(cs.drop_last()).push(cs.last())
    } else {
        enums_of(cs.drop_last())
    }
}

impl Package {
    /// Get the base namespace for this package.
    pub fn namespace(&self) -> (r: &QualifiedName)
        ensures
            *r == self.manifest.name,
    {
        &self.manifest.name
    }

    /// Get the Dolfin language version this package targets.
    pub fn dolfin_version(&self) -> (r: &str)
        ensures
            r@ == self.manifest.dolfin_version@,
    {
        self.manifest.dolfin_version.as_str()
    }

    /// Get the package version.
    pub fn version(&self) -> (r: &str)
        ensures
            r@ == self.manifest.version@,
    {
        self.manifest.version.as_str()
    }

    /// All ontology files in the package, with their namespaces.
    pub fn iter_ontologies(&self) -> (r: Vec<(&QualifiedName, &OntologyFile)>)
        ensures
            r@.len() == self.ontologies@.len(),
            forall|k: int|
                0 <= k < r@.len() ==> *(#[trigger] r@[k]).0 == self.ontologies@[k].0 && *r@[k].1
                    == self.ontologies@[k].1,
    {
        let mut out: Vec<(&QualifiedName, &OntologyFile)> = Vec::new();
        let mut i: usize = 0;
        while i < self.ontologies.len()
            invariant
                0 <= i <= self.ontologies@.len(),
                out@.len() == i,
                forall|k: int|
                    0 <= k < i ==> *(#[trigger] out@[k]).0 == self.ontologies@[k].0 && *out@[k].1
                        == self.ontologies@[k].1,
            decreases self.ontologies@.len() - i,
        {
            out.push((&self.ontologies[i].0, &self.ontologies[i].1));
            i = i + 1;
        }
        out
    }

    /// Get an ontology by its namespace.
    pub fn get_ontology(&self, namespace: &QualifiedName) -> (r: Option<&OntologyFile>)
        ensures
            match find_namespace(self.ontologies@, *namespace) {
                Some(i) => r matches Some(o) && *o == self.ontologies@[i].1,
                None => r is None,
            },
    {
        match find_namespace_exec(&self.ontologies, namespace) {
            Some(i) => Some(&self.ontologies[i].1),
            None => None,
        }
    }

    /// Get all concepts across all ontologies.
    pub fn all_concepts(&self) -> (r: Vec<(&QualifiedName, &ConceptDef)>)
        ensures
            r@.len() == package_concepts(self.ontologies@).len(),
            forall|k: int|
                0 <= k < r@.len() ==> *(#[trigger] r@[k]).0 == package_concepts(self.ontologies@)[k].0
                    && *r@[k].1 == package_concepts(self.ontologies@)[k].1,
    {
        let mut out: Vec<(&QualifiedName, &ConceptDef)> = Vec::new();
        let mut i: usize = 0;
        while i < self.ontologies.len()
            invariant
                0 <= i <= self.ontologies@.len(),
                out@.len() == package_concepts(self.ontologies@.subrange(0, i as int)).len(),
                forall|k: int|
                    0 <= k < out@.len() ==> *(#[trigger] out@[k]).0 == package_concepts(
                        self.ontologies@.subrange(0, i as int),
                    )[k].0 && *out@[k].1 == package_concepts(self.ontologies@.subrange(0, i as int))[k].1,
            decreases self.ontologies@.len() - i,
        {
            let ghost before = package_concepts(self.ontologies@.subrange(0, i as int));
            let ghost o0 = out@;
            let ns = &self.ontologies[i].0;
            let cs = self.ontologies[i].1.ast.concepts_as_ref();
            let mut j: usize = 0;
            while j < cs.len()
                invariant
                    0 <= j <= cs@.len(),
                    out@.len() == o0.len() + j,
                    forall|k: int| 0 <= k < o0.len() ==> (#[trigger] out@[k]) == o0[k],
                    forall|k: int|
                        0 <= k < j ==> *(#[trigger] out@[o0.len() + k]).0 == *ns && *out@[o0.len() + k].1
                            == *cs@[k],
                decreases cs@.len() - j,
            {
                out.push((ns, cs[j]));
                j = j + 1;
            }
            proof {
                let os = self.ontologies@.subrange(0, i + 1);
                assert(os.drop_last() =~= self.ontologies@.subrange(0, i as int));
                assert(os.last() == self.ontologies@[i as int]);
                let prev = package_concepts(self.ontologies@.subrange(0, i as int));
                let now = package_concepts(os);
                assert forall|k: int| 0 <= k < out@.len() implies *(#[trigger] out@[k]).0 == now[k].0 && *out@[k].1 == now[k].1 by {
                    if k < o0.len() {
                        assert(out@[k] == o0[k]);
                        assert(now[k] == prev[k]);
                    } else {
                        let kk = k - o0.len();
                        assert(out@[o0.len() + kk] == out@[k]);
                    }
                }
            }
            i = i + 1;
        }
        proof {
            assert(self.ontologies@.subrange(0, self.ontologies@.len() as int) =~= self.ontologies@);
        }
        out
    }

    /// Get all properties across all ontologies.
    pub fn all_properties(&self) -> (r: Vec<(&QualifiedName, &PropertyDef)>)
        ensures
            r@.len() == package_properties(self.ontologies@).len(),
            forall|k: int|
                0 <= k < r@.len() ==> *(#[trigger] r@[k]).0 == package_properties(self.ontologies@)[k].0
                    && *r@[k].1 == package_properties(self.ontologies@)[k].1,
    {
        let mut out: Vec<(&QualifiedName, &PropertyDef)> = Vec::new();
        let mut i: usize = 0;
        while i < self.ontologies.len()
            invariant
                0 <= i <= self.ontologies@.len(),
                out@.len() == package_properties(self.ontologies@.subrange(0, i as int)).len(),
                forall|k: int|
                    0 <= k < out@.len() ==> *(#[trigger] out@[k]).0 == package_properties(
                        self.ontologies@.subrange(0, i as int),
                    )[k].0 && *out@[k].1 == package_properties(self.ontologies@.subrange(0, i as int))[k].1,
            decreases self.ontologies@.len() - i,
        {
            let ghost o0 = out@;
            let ns = &self.ontologies[i].0;
            let cs = self.ontologies[i].1.ast.properties_as_ref();
            let mut j: usize = 0;
            while j < cs.len()
                invariant
                    0 <= j <= cs@.len(),
                    out@.len() == o0.len() + j,
                    forall|k: int| 0 <= k < o0.len() ==> (#[trigger] out@[k]) == o0[k],
                    forall|k: int|
                        0 <= k < j ==> *(#[trigger] out@[o0.len() + k]).0 == *ns && *out@[o0.len() + k].1
                            == *cs@[k],
                decreases cs@.len() - j,
            {
                out.push((ns, cs[j]));
                j = j + 1;
            }
            proof {
                let os = self.ontologies@.subrange(0, i + 1);
                assert(os.drop_last() =~= self.ontologies@.subrange(0, i as int));
                assert(os.last() == self.ontologies@[i as int]);
                let prev = package_properties(self.ontologies@.subrange(0, i as int));
                let now = package_properties(os);
                assert forall|k: int| 0 <= k < out@.len() implies *(#[trigger] out@[k]).0 == now[k].0 && *out@[k].1 == now[k].1 by {
                    if k < o0.len() {
                        assert(out@[k] == o0[k]);
                        assert(now[k] == prev[k]);
                    } else {
                        let kk = k - o0.len();
                        assert(out@[o0.len() + kk] == out@[k]);
                    }
                }
            }
            i = i + 1;
        }
        proof {
            assert(self.ontologies@.subrange(0, self.ontologies@.len() as int) =~= self.ontologies@);
        }
        out
    }

    /// Get all rules across all ontologies.
    pub fn all_rules(&self) -> (r: Vec<(&QualifiedName, &RuleDef)>)
        ensures
            r@.len() == package_rules(self.ontologies@).len(),
            forall|k: int|
                0 <= k < r@.len() ==> *(#[trigger] r@[k]).0 == package_rules(self.ontologies@)[k].0
                    && *r@[k].1 == package_rules(self.ontologies@)[k].1,
    {
        let mut out: Vec<(&QualifiedName, &RuleDef)> = Vec::new();
        let mut i: usize = 0;
        while i < self.ontologies.len()
            invariant
                0 <= i <= self.ontologies@.len(),
                out@.len() == package_rules(self.ontologies@.subrange(0, i as int)).len(),
                forall|k: int|
                    0 <= k < out@.len() ==> *(#[trigger] out@[k]).0 == package_rules(
                        self.ontologies@.subrange(0, i as int),
                    )[k].0 && *out@[k].1 == package_rules(self.ontologies@.subrange(0, i as int))[k].1,
            decreases self.ontologies@.len() - i,
        {
            let ghost o0 = out@;
            let ns = &self.ontologies[i].0;
            let cs = self.ontologies[i].1.ast.rules_as_ref();
            let mut j: usize = 0;
            while j < cs.len()
                invariant
                    0 <= j <= cs@.len(),
                    out@.len() == o0.len() + j,
                    forall|k: int| 0 <= k < o0.len() ==> (#[trigger] out@[k]) == o0[k],
                    forall|k: int|
                        0 <= k < j ==> *(#[trigger] out@[o0.len() + k]).0 == *ns && *out@[o0.len() + k].1
                            == *cs@[k],
                decreases cs@.len() - j,
            {
                out.push((ns, cs[j]));
                j = j + 1;
            }
            proof {
                let os = self.ontologies@.subrange(0, i + 1);
                assert(os.drop_last() =~= self.ontologies@.subrange(0, i as int));
                assert(os.last() == self.ontologies@[i as int]);
                let prev = package_rules(self.ontologies@.subrange(0, i as int));
                let now = package_rules(os);
                assert forall|k: int| 0 <= k < out@.len() implies *(#[trigger] out@[k]).0 == now[k].0 && *out@[k].1 == now[k].1 by {
                    if k < o0.len() {
                        assert(out@[k] == o0[k]);
                        assert(now[k] == prev[k]);
                    } else {
                        let kk = k - o0.len();
                        assert(out@[o0.len() + kk] == out@[k]);
                    }
                }
            }
            i = i + 1;
        }
        proof {
            assert(self.ontologies@.subrange(0, self.ontologies@.len() as int) =~= self.ontologies@);
        }
        out
    }

    /// Get all enums (concepts with a `one of` list) across all ontologies.
    pub fn all_enums(&self) -> (r: Vec<(&QualifiedName, &ConceptDef)>)
        ensures
            r@.len() == enums_of(package_concepts(self.ontologies@)).len(),
            forall|k: int|
                0 <= k < r@.len() ==> *(#[trigger] r@[k]).0 == enums_of(package_concepts(self.ontologies@))[k].0
                    && *r@[k].1 == enums_of(package_concepts(self.ontologies@))[k].1,
    {
        let all = self.all_concepts();
        let ghost pc = package_concepts(self.ontologies@);
        let mut out: Vec<(&QualifiedName, &ConceptDef)> = Vec::new();
        let mut i: usize = 0;
        while i < all.len()
            invariant
                0 <= i <= all@.len(),
                pc == package_concepts(self.ontologies@),
                all@.len() == pc.len(),
                forall|k: int| 0 <= k < all@.len() ==> *(#[trigger] all@[k]).0 == pc[k].0 && *all@[k].1 == pc[k].1,
                out@.len() == enums_of(pc.subrange(0, i as int)).len(),
                forall|k: int|
                    0 <= k < out@.len() ==> *(#[trigger] out@[k]).0 == enums_of(pc.subrange(0, i as int))[k].0
                        && *out@[k].1 == enums_of(pc.subrange(0, i as int))[k].1,
            decreases all@.len() - i,
        {
            proof {
                assert(pc.subrange(0, i + 1).drop_last() =~= pc.subrange(0, i as int));
            }
            let (ns, c) = all[i];
            if c.one_of.is_some() {
                out.push((ns, c));
            }
            i = i + 1;
        }
        proof {
            assert(pc.subrange(0, pc.len() as int) =~= pc);
        }
        out
    }
}

/// The warning for an ontology without declarations.
pub open spec fn empty_ontology_warning(ns: QualifiedName, relative_path: Seq<char>) -> Seq<char> {
    "Ontology '"@ + ns.full_text() + "' ("@ + relative_path + ") has no declarations"@
}

/// The warnings for the ontologies without declarations, in order.
pub open spec fn package_warnings(os: Seq<(QualifiedName, OntologyFile)>) -> Seq<Seq<char>>
    decreases os.len(),
{
    if os.len() == 0 {
        seq![]
    } else if os.last().1.ast.declarations@.len() == 0 {
        package_warnings(os.drop_last()).push(empty_ontology_warning(os.last().0, os.last().1.relative_path@))
    } else {
        package_warnings(os.drop_last())
    }
}

/// Check a loaded package for problems: one warning for each ontology that has no declarations.
pub fn check_package(package: &Package) -> (r: Vec<String>)
    ensures
        r@.len() == package_warnings(package.ontologies@).len(),
        forall|k: int| 0 <= k < r@.len() ==> (#[trigger] r@[k])@ == package_warnings(package.ontologies@)[k],
{
    let mut warnings: Vec<String> = Vec::new();
    let mut i: usize = 0;
    while i < package.ontologies.len()
        invariant
            0 <= i <= package.ontologies@.len(),
            warnings@.len() == package_warnings(package.ontologies@.subrange(0, i as int)).len(),
            forall|k: int|
                0 <= k < warnings@.len() ==> (#[trigger] warnings@[k])@ == package_warnings(
                    package.ontologies@.subrange(0, i as int),
                )[k],
        decreases package.ontologies@.len() - i,
    {
        proof {
            assert(package.ontologies@.subrange(0, i + 1).drop_last() =~= package.ontologies@.subrange(0, i as int));
        }
        let (ns, onto) = (&package.ontologies[i].0, &package.ontologies[i].1);
        if onto.ast.declarations.len() == 0 {
            let mut m: Vec<char> = Vec::new();
            push_str(&mut m, "Ontology '");
            let f = ns.full();
            push_str(&mut m, f.as_str());
            push_str(&mut m, "' (");
            push_str(&mut m, onto.relative_path.as_str());
            push_str(&mut m, ") has no declarations");
            proof {
                assert(m@ =~= empty_ontology_warning(*ns, onto.relative_path@));
            }
            warnings.push(string_from_chars(m.as_slice()));
        }
        i = i + 1;
    }
    proof {
        assert(package.ontologies@.subrange(0, package.ontologies@.len() as int) =~= package.ontologies@);
    }
    warnings
}

impl Package {
    /// The resolved prefixes of the ontology with namespace `current`, by
    /// identity; none when there is no such ontology.
    pub open spec fn prefixes_of(&self, current: QualifiedName) -> Map<Seq<char>, NsKey> {
        match find_namespace(self.ontologies@, current) {
            Some(i) => keyed(self.ontologies@[i].1.resolved_prefixes@),
            None => Map::empty(),
        }
    }

    /// Work out which file a concept *reference* should be declared in.
    ///
    /// Given the namespace of the file where the undeclared reference appears
    /// (`current_ns`) and the reference itself, returns the target file, the
    /// local concept name, and whether the file already exists; the aliases
    /// are those of the current file (none when it is not in the package).
    pub fn concept_file_target(&self, current_ns: &QualifiedName, reference: &QualifiedName) -> (r: ConceptFileTarget)
        ensures
            reference.parts@.len() > 0 ==> r.concept_name@ == reference.parts@.last()@,
            reference.parts@.len() == 0 ==> r.concept_name@ == Seq::<char>::empty(),
            match concept_namespace_key(*reference, self.manifest.name, self.prefixes_of(*current_ns)) {
                None => r.relative_path is None && r.namespace is None && !r.exists,
                Some(k) => match (r.namespace, r.relative_path) {
                    (Some(ns), Some(p)) => qn_key(ns) == k && match find_namespace(self.ontologies@, ns) {
                        Some(i) => r.exists && p == self.ontologies@[i].1.relative_path,
                        None => !r.exists && p@ == derived_path(k, self.manifest.name),
                    },
                    _ => false,
                },
            },
    {
        let empty = PrefixMap::new();
        let prefixes = match self.get_ontology(current_ns) {
            Some(o) => &o.resolved_prefixes,
            None => &empty,
        };
        proof {
            if find_namespace(self.ontologies@, *current_ns) is None {
                assert(keyed(prefixes@) =~= Map::<Seq<char>, NsKey>::empty());
            }
        }
        let lookup = |ns: &QualifiedName| -> (r: Option<String>)
            ensures
                match find_namespace(self.ontologies@, *ns) {
                    Some(i) => r == Some(self.ontologies@[i].1.relative_path),
                    None => r is None,
                },
            {
                match self.get_ontology(ns) {
                    Some(o) => Some(o.relative_path.clone()),
                    None => None,
                }
            };
        resolve_concept_file(reference, self.namespace(), prefixes, lookup)
    }
}

// ============================================================================
// ASSEMBLING A PACKAGE FROM PARSED SOURCES
// ============================================================================

/// A source of an in-memory package once parsed: its key (a `/`-separated
/// relative path), its AST and the comments collected while parsing it.
pub type ParsedSource = (String, ParsedOntologyFile, Vec<Comment>);

/// A key names an ontology file: a `.dlf` file whose name is not
/// `package.dlf`, at the root or below it, as in a package on disk.
pub open spec fn is_ontology_key(p: Seq<char>) -> bool {
    file_name_of(p) != "package.dlf"@ && p.len() >= 4 && p.subrange(p.len() - 4, p.len() as int) == ".dlf"@
}

/// The relative path of a key: its normal components joined by `/`.
pub open spec fn sanitized_path(p: Seq<char>) -> Seq<char> {
    join_seq(path_components(p), "/"@)
}

/// The sources whose keys name ontology files, in order.
pub open spec fn ontology_sources(es: Seq<ParsedSource>) -> Seq<ParsedSource>
    decreases es.len(),
{
    if es.len() == 0 {
        seq![]
    } else if is_ontology_key(es.last().0@) {
        ontology_sources(es.drop_last()).push(es.last())
    } else {
        ontology_sources(es.drop_last())
    }
}

/// A source is accepted: it is no ontology file, or its path names a namespace.
pub open spec fn source_ok(s: ParsedSource) -> bool {
    is_ontology_key(s.0@) ==> namespace_of_path(s.0@) is Ok
}

/// Every source is accepted.
pub open spec fn all_sources_ok(es: Seq<ParsedSource>) -> bool {
    forall|k: int| 0 <= k < es.len() ==> #[trigger] source_ok(es[k])
}

/// `e` is the error of the first source that is not accepted.
pub open spec fn invalid_source_error(es: Seq<ParsedSource>, e: PackageError) -> bool {
    exists|k: int|
        0 <= k < es.len() && (forall|j: int| 0 <= j < k ==> #[trigger] source_ok(es[j])) && !#[trigger] source_ok(
            es[k],
        ) && (e matches PackageError::InvalidStructure(m) && namespace_of_path(es[k].0@) == Err::<
            Seq<Seq<char>>,
            Seq<char>,
        >(m@))
}

/// `f` is the file that the source `s` is prepared into: its path sanitised,
/// its namespace derived from the path, its comments attached to its AST.
pub open spec fn prepared_file(s: ParsedSource, f: ParsedFile) -> bool {
    &&& f.0.relative_path@ == sanitized_path(s.0@)
    &&& f.0.absolute_path@ == sanitized_path(s.0@)
    &&& namespace_of_path(s.0@) == Ok::<Seq<Seq<char>>, Seq<char>>(texts(f.0.derived_namespace.parts@))
    &&& !f.0.derived_namespace.is_prefixed
    &&& f.0.derived_namespace.span is None
    &&& f.1 == s.1
    &&& built_from(f.2, s.1, s.2@)
}

/// Each file of `fs` is prepared from the source of `ks` at its index.
pub open spec fn prepared_files(ks: Seq<ParsedSource>, fs: Seq<ParsedFile>) -> bool {
    &&& fs.len() == ks.len()
    &&& forall|k: int| 0 <= k < ks.len() ==> #[trigger] prepared_file(ks[k], fs[k])
}

fn is_ontology_key_exec(p: &str) -> (r: bool)
    ensures
        r == is_ontology_key(p@),
{
    let c = chars_of(p);
    let n = c.len();
    let comps = components_of(c.as_slice());
    let pkg = chars_of("package.dlf");
    let mut manifest_name = false;
    if comps.len() > 0 {
        let last = comps[comps.len() - 1].as_slice();
        manifest_name = chars_eq(last, pkg.as_slice());
        proof {
            assert(c@ == p@);
            assert(last@ == path_components(p@).last());
            assert(file_name_of(p@) == last@);
            assert(manifest_name == (last@ == pkg@));
        }
    } else {
        proof {
            assert(path_components(p@).len() == 0);
            assert(file_name_of(p@) == Seq::<char>::empty());
        }
    }
    proof {
        assert(c@ == p@);
        assert(pkg@ == "package.dlf"@);
        reveal_strlit("package.dlf");
        assert(manifest_name == (file_name_of(p@) == "package.dlf"@));
    }
    !manifest_name && n >= 4 && lit_eq(c.as_slice(), n - 4, n, ".dlf")
}

/// The sanitised relative path of a key.
fn sanitize_path(p: &str) -> (r: String)
    ensures
        r@ == sanitized_path(p@),
{
    let c = chars_of(p);
    let comps = components_of(c.as_slice());
    let mut parts: Vec<String> = Vec::new();
    let mut i: usize = 0;
    while i < comps.len()
        invariant
            0 <= i <= comps@.len(),
            comps@.len() == path_components(c@).len(),
            forall|k: int| 0 <= k < comps@.len() ==> (#[trigger] comps@[k])@ == path_components(c@)[k],
            parts@.len() == i,
            forall|k: int| 0 <= k < i ==> (#[trigger] parts@[k])@ == path_components(c@)[k],
        decreases comps@.len() - i,
    {
        parts.push(string_from_chars(comps[i].as_slice()));
        i = i + 1;
    }
    proof {
        assert(texts(parts@) =~= path_components(p@));
    }
    crate::ast::join_strings(parts.as_slice(), "/")
}

/// Turn the parsed sources of an in-memory package into the files to
/// resolve: the manifest and the keys that are not `.dlf` files are skipped;
/// each other source gets its sanitised path, the namespace derived from its
/// path and the comment map of its AST. The first source whose path names no
/// valid namespace is refused.
pub fn prepare_sources(sources: Vec<ParsedSource>) -> (r: Result<Vec<ParsedFile>, PackageError>)
    ensures
        r matches Ok(fs) ==> all_sources_ok(sources@) && prepared_files(ontology_sources(sources@), fs@),
        r matches Err(e) ==> invalid_source_error(sources@, e),
        all_sources_ok(sources@) ==> r is Ok,
{
    let ghost es = sources@;
    let mut rest = sources;
    let mut out: Vec<ParsedFile> = Vec::new();
    let mut k: usize = 0;
    let _n = rest.len();
    while rest.len() > 0
        invariant
            es == sources@,
            es.len() <= usize::MAX,
            k + rest@.len() == es.len(),
            rest@ == es.subrange(k as int, es.len() as int),
            all_sources_ok(es.subrange(0, k as int)),
            prepared_files(ontology_sources(es.subrange(0, k as int)), out@),
        decreases rest@.len(),
    {
        let ghost pre = es.subrange(0, k as int);
        let ghost next = es.subrange(0, k + 1);
        let (path, ast, comments) = rest.remove(0);
        proof {
            assert(next.drop_last() =~= pre);
            assert(es[k as int] == (path, ast, comments));
            assert(rest@ =~= es.subrange(k + 1, es.len() as int));
        }
        if is_ontology_key_exec(path.as_str()) {
            match path_to_namespace(path.as_str()) {
                Ok(ns) => {
                    let rel = sanitize_path(path.as_str());
                    let file = DiscoveredFile {
                        relative_path: rel.clone(),
                        absolute_path: rel,
                        derived_namespace: ns,
                    };
                    let comment_map = CommentMap::build(&ast, comments);
                    out.push((file, ast, comment_map));
                    proof {
                        assert(ontology_sources(next) == ontology_sources(pre).push(es[k as int]));
                        assert forall|j: int| 0 <= j < next.len() implies #[trigger] source_ok(next[j]) by {
                            if j < k {
                                assert(next[j] == pre[j]);
                            }
                        }
                    }
                },
                Err(e) => {
                    proof {
                        assert(!source_ok(es[k as int]));
                        assert forall|j: int| 0 <= j < k implies #[trigger] source_ok(es[j]) by {
                            assert(pre[j] == es[j]);
                        }
                        assert(path@ == es[k as int].0@);
                        assert(invalid_source_error(es, e));
                    }
                    return Err(e);
                },
            }
        } else {
            proof {
                assert(ontology_sources(next) == ontology_sources(pre));
                assert forall|j: int| 0 <= j < next.len() implies #[trigger] source_ok(next[j]) by {
                    if j < k {
                        assert(next[j] == pre[j]);
                    }
                }
            }
        }
        k = k + 1;
    }
    proof {
        assert(es.subrange(0, es.len() as int) =~= es);
    }
    Ok(out)
}

/// The ontologies of a package result, or its error.
pub open spec fn ontologies_of(r: Result<Package, PackageError>) -> Result<Vec<(QualifiedName, OntologyFile)>, PackageError> {
    match r {
        Ok(p) => Ok(p.ontologies),
        Err(e) => Err(e),
    }
}

/// Assemble a package from its parsed manifest and the parsed sources of an
/// in-memory file map: the sources are prepared (see [`prepare_sources`]),
/// then resolved against the manifest's namespace; the package's root is `.`.
pub fn load_package_from_parsed(manifest: PackageFile, sources: Vec<ParsedSource>) -> (r: Result<Package, PackageError>)
    ensures
        !all_sources_ok(sources@) ==> (r matches Err(e) && invalid_source_error(sources@, e)),
        all_sources_ok(sources@) ==> exists|fs: Seq<ParsedFile>|
            #[trigger] prepared_files(ontology_sources(sources@), fs) && resolution_of(manifest.name, fs, ontologies_of(r)),
        r matches Ok(p) ==> p.manifest == manifest && p.root@ == "."@,
{
    let ghost es = sources@;
    let files = match prepare_sources(sources) {
        Ok(fs) => fs,
        Err(e) => {
            proof {
                if all_sources_ok(es) {
                    let k = choose|k: int|
                        0 <= k < es.len() && (forall|j: int| 0 <= j < k ==> #[trigger] source_ok(es[j])) && !#[trigger] source_ok(es[k])
                            && (e matches PackageError::InvalidStructure(m) && namespace_of_path(es[k].0@) == Err::<
                            Seq<Seq<char>>,
                            Seq<char>,
                        >(m@));
                    assert(source_ok(es[k]));
                }
            }
            return Err(e);
        },
    };
    let ghost fs = files@;
    let resolved = resolve_package(&manifest, files);
    match resolved {
        Ok(ontologies) => {
            let p = Package { manifest, root: String::from_str("."), ontologies };
            proof {
                assert(ontologies_of(Ok::<Package, PackageError>(p)) == Ok::<Vec<(QualifiedName, OntologyFile)>, PackageError>(p.ontologies));
                assert(prepared_files(ontology_sources(es), fs));
            }
            Ok(p)
        },
        Err(e) => {
            proof {
                assert(prepared_files(ontology_sources(es), fs));
            }
            Err(e)
        },
    }
}

} // verus!
