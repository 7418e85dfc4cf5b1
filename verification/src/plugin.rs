//! Language analyzer plugins and the registry that maps file extensions
//! to them.
use vstd::prelude::*;
use vstd::string::StringExecFns;

use crate::css_analyzer::CssAnalyzer;
use crate::text::{lemma_text_lt_total, lemma_text_lt_trans, lowercase, text_eq, text_less, text_lt, to_lowercase};

verus! {

/// What every language analyzer tells about itself.
pub trait LanguageAnalyzer {
    /// Human-readable plugin name, e.g. "TypeScript/JavaScript".
    fn name(&self) -> &'static str;

    /// Semantic version of the analyzer plugin.
    fn version(&self) -> &'static str;

    /// Short description of what the analyzer extracts.
    fn description(&self) -> &'static str;

    /// The file extensions the analyzer handles.
    fn supported_extensions(&self) -> Vec<&'static str>;
}

/// The default TypeScript/JavaScript analyzer.
pub struct TypeScriptJavaScriptAnalyzer;

impl LanguageAnalyzer for TypeScriptJavaScriptAnalyzer {
    fn name(&self) -> (s: &'static str)
        ensures
            s@ == "TypeScript/JavaScript"@,
    {
        "TypeScript/JavaScript"
    }

    fn version(&self) -> (s: &'static str)
        ensures
            s@ == "0.1.0"@,
    {
        "0.1.0"
    }

    fn description(&self) -> (s: &'static str)
        ensures
            s@ == "OXC-based AST parser for TypeScript and JavaScript. Extracts imports, exports, symbols, and references."@,
    {
        "OXC-based AST parser for TypeScript and JavaScript. Extracts imports, exports, symbols, and references."
    }

    fn supported_extensions(&self) -> (v: Vec<&'static str>)
        ensures
            v@.len() == 4,
            v@[0]@ == "ts"@,
            v@[1]@ == "tsx"@,
            v@[2]@ == "js"@,
            v@[3]@ == "jsx"@,
    {
        let mut v: Vec<&'static str> = Vec::new();
        v.push("ts");
        v.push("tsx");
        v.push("js");
        v.push("jsx");
        v
    }
}

impl LanguageAnalyzer for CssAnalyzer {
    fn name(&self) -> (s: &'static str)
        ensures
            s@ == "CSS"@,
    {
        "CSS"
    }

    fn version(&self) -> (s: &'static str)
        ensures
            s@ == "0.1.0"@,
    {
        "0.1.0"
    }

    fn description(&self) -> (s: &'static str)
        ensures
            s@ == "Extracts @import and @url references from CSS files."@,
    {
        "Extracts @import and @url references from CSS files."
    }

    fn supported_extensions(&self) -> (v: Vec<&'static str>)
        ensures
            v@.len() == 1,
            v@[0]@ == "css"@,
    {
        let mut v: Vec<&'static str> = Vec::new();
        v.push("css");
        v
    }
}

/// The built-in analyzers a registry can hand out.
#[derive(Debug, Clone, Copy, PartialEq, Eq, Structural)]
pub enum Analyzer {
    TypeScriptJavaScript,
    Css,
}

/// Metadata for a registered analyzer plugin.
#[derive(Debug)]
pub struct PluginInfo {
    pub name: String,
    pub version: String,
    pub description: String,
    pub extensions: Vec<String>,
}

/// A registry mapping file extensions to analyzers.
pub struct AnalyzerRegistry {
    /// Extension and analyzer, each extension once, the latest
    /// registration winning.
    pub map: Vec<(String, Analyzer)>,
    pub plugins: Vec<PluginInfo>,
}

/// The extensions an analyzer handles, in its own order.
pub open spec fn analyzer_extensions(a: Analyzer) -> Seq<Seq<char>> {
    match a {
        Analyzer::TypeScriptJavaScript => seq!["ts"@, "tsx"@, "js"@, "jsx"@],
        Analyzer::Css => seq!["css"@],
    }
}

/// The name of an analyzer.
pub open spec fn analyzer_name(a: Analyzer) -> Seq<char> {
    match a {
        Analyzer::TypeScriptJavaScript => "TypeScript/JavaScript"@,
        Analyzer::Css => "CSS"@,
    }
}

/// The description of an analyzer.
pub open spec fn analyzer_description(a: Analyzer) -> Seq<char> {
    match a {
        Analyzer::TypeScriptJavaScript => "OXC-based AST parser for TypeScript and JavaScript. Extracts imports, exports, symbols, and references."@,
        Analyzer::Css => "Extracts @import and @url references from CSS files."@,
    }
}

/// The plugin entry describes the analyzer.
pub open spec fn describes(p: PluginInfo, a: Analyzer) -> bool {
    &&& p.name@ == analyzer_name(a)
    &&& p.version@ == "0.1.0"@
    &&& p.description@ == analyzer_description(a)
    &&& p.extensions@.len() == analyzer_extensions(a).len()
    &&& forall|i: int| 0 <= i < p.extensions@.len() ==> (#[trigger] p.extensions@[i])@ == analyzer_extensions(a)[i]
}

impl AnalyzerRegistry {
    /// The extension map as a mathematical map.
    pub open spec fn view_map(&self) -> Map<Seq<char>, Analyzer> {
        Map::new(
            |e: Seq<char>| exists|i: int| 0 <= i < self.map@.len() && (#[trigger] self.map@[i]).0@ == e,
            |e: Seq<char>| self.map@[choose|i: int| 0 <= i < self.map@.len() && (#[trigger] self.map@[i]).0@ == e].1,
        )
    }

    /// Each extension appears once in the map.
    pub open spec fn wf(&self) -> bool {
        forall|i: int, j: int| 0 <= i < j < self.map@.len() ==> self.map@[i].0@ != self.map@[j].0@
    }

    /// An empty registry.
    pub fn new() -> (r: Self)
        ensures
            r.wf(),
            r.map@.len() == 0,
            r.plugins@.len() == 0,
    {
        AnalyzerRegistry { map: Vec::new(), plugins: Vec::new() }
    }

    /// Maps `ext` to `a`, replacing any earlier analyzer for it.
    fn insert_ext(&mut self, ext: &str, a: Analyzer)
        requires
            old(self).wf(),
        ensures
            final(self).wf(),
            final(self).plugins@ == old(self).plugins@,
            final(self).view_map() == old(self).view_map().insert(ext@, a),
    {
        let ghost before = self.view_map();
        let mut i: usize = 0;
        while i < self.map.len()
            invariant
                self.wf(),
                before == old(self).view_map(),
                self.view_map() == before,
                self.plugins@ == old(self).plugins@,
                i <= self.map.len(),
                forall|k: int| 0 <= k < i ==> (#[trigger] self.map@[k]).0@ != ext@,
            decreases self.map.len() - i,
        {
            if text_eq(self.map[i].0.as_str(), ext) {
                let key = String::from_str(ext);
                let ghost old_map = self.map@;
                self.map.set(i, (key, a));
                proof {
                    assert forall|p: int, q: int| 0 <= p < q < self.map@.len() implies self.map@[p].0@
                        != self.map@[q].0@ by {
                        assert(old_map[p].0@ != old_map[q].0@);
                    }
                    assert forall|e: Seq<char>| #[trigger] self.view_map().contains_key(e) <==> before.insert(ext@, a).contains_key(e) by {
                        if e != ext@ && before.contains_key(e) {
                            let k = choose|k: int| 0 <= k < old_map.len() && (#[trigger] old_map[k]).0@ == e;
                            assert(self.map@[k] == old_map[k]);
                        }
                        if self.view_map().contains_key(e) && e != ext@ {
                            let k = choose|k: int| 0 <= k < self.map@.len() && (#[trigger] self.map@[k]).0@ == e;
                            assert(self.map@[k] == old_map[k]);
                        }
                        if e == ext@ {
                            assert(self.map@[i as int].0@ == e);
                        }
                    }
                    assert forall|e: Seq<char>| #[trigger] self.view_map().contains_key(e) implies self.view_map()[e]
                        == before.insert(ext@, a)[e] by {
                        let k = choose|k: int| 0 <= k < self.map@.len() && (#[trigger] self.map@[k]).0@ == e;
                        if e == ext@ {
                            assert(k == i);
                        } else {
                            assert(self.map@[k] == old_map[k]);
                            let k2 = choose|k2: int| 0 <= k2 < old_map.len() && (#[trigger] old_map[k2]).0@ == e;
                            assert(k2 == k);
                        }
                    }
                    assert(self.view_map() =~= before.insert(ext@, a));
                }
                return;
            }
            i = i + 1;
        }
        let key = String::from_str(ext);
        let ghost old_map = self.map@;
        self.map.push((key, a));
        proof {
            assert forall|p: int, q: int| 0 <= p < q < self.map@.len() implies self.map@[p].0@ != self.map@[q].0@ by {
                if q < old_map.len() {
                    assert(old_map[p].0@ != old_map[q].0@);
                }
            }
            assert forall|e: Seq<char>| #[trigger] self.view_map().contains_key(e) <==> before.insert(ext@, a).contains_key(e) by {
                if e != ext@ && before.contains_key(e) {
                    let k = choose|k: int| 0 <= k < old_map.len() && (#[trigger] old_map[k]).0@ == e;
                    assert(self.map@[k] == old_map[k]);
                }
                if self.view_map().contains_key(e) && e != ext@ {
                    let k = choose|k: int| 0 <= k < self.map@.len() && (#[trigger] self.map@[k]).0@ == e;
                    assert(self.map@[k] == old_map[k]);
                }
                if e == ext@ {
                    assert(self.map@[old_map.len() as int].0@ == e);
                }
            }
            assert forall|e: Seq<char>| #[trigger] self.view_map().contains_key(e) implies self.view_map()[e]
                == before.insert(ext@, a)[e] by {
                let k = choose|k: int| 0 <= k < self.map@.len() && (#[trigger] self.map@[k]).0@ == e;
                if e == ext@ {
                    assert(k == old_map.len());
                } else {
                    assert(self.map@[k] == old_map[k]);
                    let k2 = choose|k2: int| 0 <= k2 < old_map.len() && (#[trigger] old_map[k2]).0@ == e;
                    assert(k2 == k);
                }
            }
            assert(self.view_map() =~= before.insert(ext@, a));
        }
    }

    /// Registers an analyzer: maps each of its extensions to it and
    /// records its metadata.
    pub fn register(&mut self, a: Analyzer)
        requires
            old(self).wf(),
        ensures
            final(self).wf(),
            final(self).plugins@.len() == old(self).plugins@.len() + 1,
            forall|i: int| 0 <= i < old(self).plugins@.len() ==> final(self).plugins@[i] == old(self).plugins@[i],
            describes(final(self).plugins@.last(), a),
            final(self).view_map() == registered(old(self).view_map(), analyzer_extensions(a), a),
    {
        let (name, version, description, exts) = match a {
            Analyzer::TypeScriptJavaScript => {
                let t = TypeScriptJavaScriptAnalyzer;
                (t.name(), t.version(), t.description(), t.supported_extensions())
            },
            Analyzer::Css => {
                let c = CssAnalyzer;
                (LanguageAnalyzer::name(&c), LanguageAnalyzer::version(&c), LanguageAnalyzer::description(&c), c.supported_extensions())
            },
        };
        proof {
            assert(exts@.len() == analyzer_extensions(a).len());
        }
        let mut ext_strings: Vec<String> = Vec::new();
        let ghost start = self.view_map();
        let mut i: usize = 0;
        while i < exts.len()
            invariant
                self.wf(),
                self.plugins@ == old(self).plugins@,
                i <= exts.len(),
                exts@.len() == analyzer_extensions(a).len(),
                forall|k: int| 0 <= k < exts@.len() ==> (#[trigger] exts@[k])@ == analyzer_extensions(a)[k],
                ext_strings@.len() == i,
                forall|k: int| 0 <= k < i ==> (#[trigger] ext_strings@[k])@ == analyzer_extensions(a)[k],
                self.view_map() == registered(start, analyzer_extensions(a).take(i as int), a),
            decreases exts.len() - i,
        {
            self.insert_ext(exts[i], a);
            ext_strings.push(String::from_str(exts[i]));
            proof {
                let es = analyzer_extensions(a);
                assert(es.take(i + 1).drop_last() =~= es.take(i as int));
            }
            i = i + 1;
        }
        proof {
            assert(analyzer_extensions(a).take(i as int) =~= analyzer_extensions(a));
        }
        self.plugins.push(
            PluginInfo {
                name: String::from_str(name),
                version: String::from_str(version),
                description: String::from_str(description),
                extensions: ext_strings,
            },
        );
    }

    /// The analyzer registered for `extension`, compared after lowercasing.
    pub fn resolve(&self, extension: &str) -> (r: Option<Analyzer>)
        requires
            self.wf(),
        ensures
            match r {
                Some(a) => self.view_map().contains_key(lowercase(extension@)) && self.view_map()[lowercase(
                    extension@,
                )] == a,
                None => !self.view_map().contains_key(lowercase(extension@)),
            },
    {
        let key = to_lowercase(extension);
        self.resolve_key(key.as_str())
    }

    /// The analyzer registered for an already lowercased extension.
    pub fn resolve_key(&self, key: &str) -> (r: Option<Analyzer>)
        requires
            self.wf(),
        ensures
            match r {
                Some(a) => self.view_map().contains_key(key@) && self.view_map()[key@] == a,
                None => !self.view_map().contains_key(key@),
            },
    {
        let mut i: usize = 0;
        while i < self.map.len()
            invariant
                self.wf(),
                i <= self.map.len(),
                forall|k: int| 0 <= k < i ==> (#[trigger] self.map@[k]).0@ != key@,
            decreases self.map.len() - i,
        {
            if text_eq(self.map[i].0.as_str(), key) {
                proof {
                    let e = key@;
                    assert(self.view_map().contains_key(e));
                    let k = choose|k: int| 0 <= k < self.map@.len() && (#[trigger] self.map@[k]).0@ == e;
                    if k != i {
                        assert(self.map@[k].0@ == self.map@[i as int].0@);
                    }
                }
                return Some(self.map[i].1);
            }
            i = i + 1;
        }
        None
    }

    /// The registered extensions, each once, in ascending order.
    pub fn all_extensions(&self) -> (exts: Vec<String>)
        requires
            self.wf(),
        ensures
            forall|i: int, j: int| 0 <= i < j < exts@.len() ==> text_lt(exts@[i]@, exts@[j]@),
            forall|e: Seq<char>| #[trigger] self.view_map().contains_key(e) <==> has_text(exts@, e),
    {
        let mut out: Vec<String> = Vec::new();
        let mut i: usize = 0;
        while i < self.map.len()
            invariant
                self.wf(),
                i <= self.map.len(),
                forall|p: int, q: int| 0 <= p < q < out@.len() ==> text_lt(out@[p]@, out@[q]@),
                forall|e: Seq<char>|
                    #![trigger key_in(self.map@, i as int, e)]
                    #![trigger has_text(out@, e)]
                    key_in(self.map@, i as int, e) <==> has_text(out@, e),
            decreases self.map.len() - i,
        {
            let x = self.map[i].0.clone();
            // position of the first entry after x
            let mut p: usize = 0;
            while p < out.len() && text_less(out[p].as_str(), x.as_str())
                invariant
                    p <= out.len(),
                    forall|q: int| 0 <= q < p ==> text_lt(out@[q]@, x@),
                decreases out.len() - p,
            {
                p = p + 1;
            }
            let ghost pre = out@;
            proof {
                assert forall|q: int| 0 <= q < pre.len() implies pre[q]@ != x@ by {
                    let e = pre[q]@;
                    assert(has_text(pre, e));
                    assert(key_in(self.map@, i as int, e));
                    let k = choose|k: int| 0 <= k < i && (#[trigger] self.map@[k]).0@ == e;
                    assert(self.map@[k].0@ != self.map@[i as int].0@);
                }
                if p < pre.len() {
                    lemma_text_lt_total(pre[p as int]@, x@);
                }
            }
            out.insert(p, x);
            proof {
                assert forall|a: int, b: int| 0 <= a < b < out@.len() implies text_lt(out@[a]@, out@[b]@) by {
                    if b < p {
                        assert(out@[a] == pre[a] && out@[b] == pre[b]);
                    } else if b == p {
                        assert(out@[a] == pre[a]);
                    } else if a < p {
                        assert(out@[a] == pre[a] && out@[b] == pre[b - 1]);
                        lemma_text_lt_total(pre[p as int]@, x@);
                        if b - 1 > p {
                            lemma_text_lt_trans(x@, pre[p as int]@, pre[b - 1]@);
                        }
                        lemma_text_lt_trans(pre[a]@, x@, pre[b - 1]@);
                    } else if a == p {
                        assert(out@[b] == pre[b - 1]);
                        lemma_text_lt_total(pre[p as int]@, x@);
                        if b - 1 > p {
                            lemma_text_lt_trans(x@, pre[p as int]@, pre[b - 1]@);
                        }
                    } else {
                        assert(out@[a] == pre[a - 1] && out@[b] == pre[b - 1]);
                    }
                }
                assert forall|e: Seq<char>|
                    #![trigger key_in(self.map@, i + 1, e)]
                    #![trigger has_text(out@, e)]
                    key_in(self.map@, i + 1, e) <==> has_text(out@, e) by {
                    if key_in(self.map@, i + 1, e) {
                        let k = choose|k: int| 0 <= k < i + 1 && (#[trigger] self.map@[k]).0@ == e;
                        if k == i {
                            assert(out@[p as int]@ == e);
                        } else {
                            assert(key_in(self.map@, i as int, e));
                            assert(has_text(pre, e));
                            let q = choose|q: int| 0 <= q < pre.len() && (#[trigger] pre[q])@ == e;
                            if q < p {
                                assert(out@[q] == pre[q]);
                            } else {
                                assert(out@[q + 1] == pre[q]);
                            }
                        }
                    }
                    if has_text(out@, e) {
                        let q = choose|q: int| 0 <= q < out@.len() && (#[trigger] out@[q])@ == e;
                        if q == p {
                            assert(self.map@[i as int].0@ == e);
                        } else if q < p {
                            assert(out@[q] == pre[q]);
                            assert(has_text(pre, e));
                        } else {
                            assert(out@[q] == pre[q - 1]);
                            assert(has_text(pre, e));
                        }
                    }
                }
            }
            i = i + 1;
        }
        proof {
            assert forall|e: Seq<char>| #[trigger] self.view_map().contains_key(e) <==> has_text(out@, e) by {
                assert(self.view_map().contains_key(e) <==> key_in(self.map@, self.map@.len() as int, e));
            }
        }
        out
    }

    /// The registered plugins, in registration order.
    pub fn plugin_list(&self) -> (r: &[PluginInfo])
        ensures
            r@ == self.plugins@,
    {
        self.plugins.as_slice()
    }

    /// How many plugins are registered.
    pub fn plugin_count(&self) -> (r: usize)
        ensures
            r == self.plugins@.len(),
    {
        self.plugins.len()
    }
}

/// Some element of `s` holds the text `e`.
pub open spec fn has_text(s: Seq<String>, e: Seq<char>) -> bool {
    exists|p: int| 0 <= p < s.len() && (#[trigger] s[p])@ == e
}

/// One of the first `k` entries is for extension `e`.
pub open spec fn key_in(m: Seq<(String, Analyzer)>, k: int, e: Seq<char>) -> bool {
    exists|j: int| 0 <= j < k && (#[trigger] m[j]).0@ == e
}

/// The map after registering `exts` for `a`, in order.
pub open spec fn registered(m: Map<Seq<char>, Analyzer>, exts: Seq<Seq<char>>, a: Analyzer) -> Map<Seq<char>, Analyzer>
    decreases exts.len(),
{
    if exts.len() == 0 {
        m
    } else {
        registered(m, exts.drop_last(), a).insert(exts.last(), a)
    }
}

/// The default registry: the TypeScript/JavaScript analyzer, then CSS.
pub fn build_registry() -> (reg: AnalyzerRegistry)
    ensures
        reg.wf(),
        reg.plugins@.len() == 2,
        describes(reg.plugins@[0], Analyzer::TypeScriptJavaScript),
        describes(reg.plugins@[1], Analyzer::Css),
        reg.view_map() == registered(
            registered(Map::empty(), analyzer_extensions(Analyzer::TypeScriptJavaScript), Analyzer::TypeScriptJavaScript),
            analyzer_extensions(Analyzer::Css),
            Analyzer::Css,
        ),
{
    let mut reg = AnalyzerRegistry::new();
    proof {
        assert(reg.view_map() =~= Map::empty());
    }
    reg.register(Analyzer::TypeScriptJavaScript);
    reg.register(Analyzer::Css);
    reg
}

} // verus!
