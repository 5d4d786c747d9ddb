//! The field schema: the ordered registry of recognized manifest fields.
//!
//! The registry is pure data: a sequence of field names, each paired with the
//! tag of the value transform that applies to it. A field's priority is its
//! position in the sequence, so priorities are distinct by construction.

use vstd::prelude::*;
use crate::text::str_chars;

verus! {

/// The tag of the value transform bound to a recognized field.
pub enum Tx {
    /// Leave the value as it is.
    Keep,
    /// Sort an object's entries by key, one level only.
    Alpha,
    /// Sort an object's entries by key, recursing into object values.
    Rec,
    /// Sort an array's strings, deduplicated; non-strings keep their order.
    Uniq,
    /// Order conditional exports: paths, types, other conditions, default.
    Exports,
    /// Order a person object: name, email, url, then the rest.
    People,
    /// Apply the person ordering to every object in an array.
    PeopleArr,
    /// Order by the fixed keys of a bug reference: url, email.
    Bugs,
    /// Order by the fixed keys of a typed link: type, url.
    TypeUrl,
    /// Order by the fixed keys of a directories block.
    Directories,
    /// Order by the fixed keys of a prebuilt-binary block.
    Binary,
}

impl Clone for Tx {
    fn clone(&self) -> (r: Self)
        ensures
            r == *self,
    {
        *self
    }
}

impl Copy for Tx {

}

/// The abstraction of one executable table row.
pub open spec fn tview(p: (Vec<char>, Tx)) -> (Seq<char>, Tx) {
    (p.0@, p.1)
}

/// The abstraction of the executable table.
pub open spec fn tabview(s: Seq<(Vec<char>, Tx)>) -> Seq<(Seq<char>, Tx)> {
    s.map_values(|p: (Vec<char>, Tx)| tview(p))
}

pub open spec fn schema_a() -> Seq<(Seq<char>, Tx)> {
    seq![
        ("$schema"@, Tx::Keep),
        ("name"@, Tx::Keep),
        ("displayName"@, Tx::Keep),
        ("version"@, Tx::Keep),
        ("stableVersion"@, Tx::Keep),
        ("gitHead"@, Tx::Keep),
        ("private"@, Tx::Keep),
        ("description"@, Tx::Keep),
        ("categories"@, Tx::Uniq),
        ("keywords"@, Tx::Uniq),
        ("homepage"@, Tx::Keep),
        ("bugs"@, Tx::Bugs),
        ("license"@, Tx::Keep),
        ("author"@, Tx::People),
        ("maintainers"@, Tx::PeopleArr),
        ("contributors"@, Tx::PeopleArr),
        ("repository"@, Tx::TypeUrl),
        ("funding"@, Tx::TypeUrl),
        ("donate"@, Tx::TypeUrl),
        ("sponsor"@, Tx::TypeUrl),
        ("qna"@, Tx::Keep),
        ("publisher"@, Tx::Keep),
        ("man"@, Tx::Keep),
    ]
}

pub open spec fn schema_b() -> Seq<(Seq<char>, Tx)> {
    seq![
        ("style"@, Tx::Keep),
        ("example"@, Tx::Keep),
        ("examplestyle"@, Tx::Keep),
        ("assets"@, Tx::Keep),
        ("bin"@, Tx::Alpha),
        ("source"@, Tx::Keep),
        ("directories"@, Tx::Directories),
        ("workspaces"@, Tx::Keep),
        ("binary"@, Tx::Binary),
        ("files"@, Tx::Uniq),
        ("os"@, Tx::Keep),
        ("cpu"@, Tx::Keep),
        ("libc"@, Tx::Uniq),
        ("type"@, Tx::Keep),
        ("sideEffects"@, Tx::Keep),
        ("main"@, Tx::Keep),
        ("module"@, Tx::Keep),
        ("browser"@, Tx::Keep),
        ("types"@, Tx::Keep),
        ("typings"@, Tx::Keep),
        ("typesVersions"@, Tx::Keep),
        ("typeScriptVersion"@, Tx::Keep),
        ("typesPublisherContentHash"@, Tx::Keep),
    ]
}

pub open spec fn schema_c() -> Seq<(Seq<char>, Tx)> {
    seq![
        ("react-native"@, Tx::Keep),
        ("svelte"@, Tx::Keep),
        ("unpkg"@, Tx::Keep),
        ("jsdelivr"@, Tx::Keep),
        ("jsnext:main"@, Tx::Keep),
        ("umd"@, Tx::Keep),
        ("umd:main"@, Tx::Keep),
        ("es5"@, Tx::Keep),
        ("esm5"@, Tx::Keep),
        ("fesm5"@, Tx::Keep),
        ("es2015"@, Tx::Keep),
        ("esm2015"@, Tx::Keep),
        ("fesm2015"@, Tx::Keep),
        ("es2020"@, Tx::Keep),
        ("esm2020"@, Tx::Keep),
        ("fesm2020"@, Tx::Keep),
        ("esnext"@, Tx::Keep),
        ("imports"@, Tx::Keep),
        ("exports"@, Tx::Exports),
        ("publishConfig"@, Tx::Alpha),
        ("scripts"@, Tx::Keep),
        ("betterScripts"@, Tx::Keep),
        ("dependencies"@, Tx::Alpha),
    ]
}

pub open spec fn schema_d() -> Seq<(Seq<char>, Tx)> {
    seq![
        ("devDependencies"@, Tx::Alpha),
        ("dependenciesMeta"@, Tx::Keep),
        ("peerDependencies"@, Tx::Alpha),
        ("peerDependenciesMeta"@, Tx::Keep),
        ("optionalDependencies"@, Tx::Alpha),
        ("bundledDependencies"@, Tx::Uniq),
        ("bundleDependencies"@, Tx::Uniq),
        ("resolutions"@, Tx::Alpha),
        ("overrides"@, Tx::Alpha),
        ("husky"@, Tx::Rec),
        ("simple-git-hooks"@, Tx::Keep),
        ("pre-commit"@, Tx::Keep),
        ("lint-staged"@, Tx::Keep),
        ("nano-staged"@, Tx::Keep),
        ("commitlint"@, Tx::Rec),
        ("l10n"@, Tx::Keep),
        ("contributes"@, Tx::Keep),
        ("activationEvents"@, Tx::Uniq),
        ("extensionPack"@, Tx::Uniq),
        ("extensionDependencies"@, Tx::Uniq),
        ("extensionKind"@, Tx::Uniq),
        ("icon"@, Tx::Keep),
        ("badges"@, Tx::Keep),
    ]
}

pub open spec fn schema_e() -> Seq<(Seq<char>, Tx)> {
    seq![
        ("galleryBanner"@, Tx::Keep),
        ("preview"@, Tx::Keep),
        ("markdown"@, Tx::Keep),
        ("napi"@, Tx::Alpha),
        ("flat"@, Tx::Keep),
        ("config"@, Tx::Alpha),
        ("nodemonConfig"@, Tx::Rec),
        ("browserify"@, Tx::Rec),
        ("babel"@, Tx::Rec),
        ("browserslist"@, Tx::Keep),
        ("xo"@, Tx::Rec),
        ("prettier"@, Tx::Rec),
        ("eslintConfig"@, Tx::Rec),
        ("eslintIgnore"@, Tx::Keep),
        ("standard"@, Tx::Rec),
        ("npmpkgjsonlint"@, Tx::Keep),
        ("npmPackageJsonLintConfig"@, Tx::Keep),
        ("npmpackagejsonlint"@, Tx::Keep),
        ("release"@, Tx::Keep),
        ("auto-changelog"@, Tx::Rec),
        ("remarkConfig"@, Tx::Rec),
        ("stylelint"@, Tx::Rec),
        ("typescript"@, Tx::Rec),
    ]
}

pub open spec fn schema_f() -> Seq<(Seq<char>, Tx)> {
    seq![
        ("typedoc"@, Tx::Rec),
        ("tshy"@, Tx::Rec),
        ("tsdown"@, Tx::Rec),
        ("size-limit"@, Tx::Uniq),
        ("ava"@, Tx::Rec),
        ("jest"@, Tx::Rec),
        ("jest-junit"@, Tx::Keep),
        ("jest-stare"@, Tx::Keep),
        ("mocha"@, Tx::Rec),
        ("nyc"@, Tx::Rec),
        ("c8"@, Tx::Rec),
        ("tap"@, Tx::Keep),
        ("tsd"@, Tx::Rec),
        ("typeCoverage"@, Tx::Rec),
        ("oclif"@, Tx::Rec),
        ("languageName"@, Tx::Keep),
        ("preferGlobal"@, Tx::Keep),
        ("devEngines"@, Tx::Alpha),
        ("engines"@, Tx::Alpha),
        ("engineStrict"@, Tx::Keep),
        ("volta"@, Tx::Rec),
        ("packageManager"@, Tx::Keep),
        ("pnpm"@, Tx::Keep),
    ]
}

fn push_schema_a(t: &mut Vec<(Vec<char>, Tx)>)
    ensures
        tabview(final(t)@) == tabview(old(t)@) + schema_a(),
{
    let ghost t0 = tabview(old(t)@);
    t.push((str_chars("$schema"), Tx::Keep));
    t.push((str_chars("name"), Tx::Keep));
    t.push((str_chars("displayName"), Tx::Keep));
    t.push((str_chars("version"), Tx::Keep));
    t.push((str_chars("stableVersion"), Tx::Keep));
    t.push((str_chars("gitHead"), Tx::Keep));
    t.push((str_chars("private"), Tx::Keep));
    t.push((str_chars("description"), Tx::Keep));
    t.push((str_chars("categories"), Tx::Uniq));
    t.push((str_chars("keywords"), Tx::Uniq));
    t.push((str_chars("homepage"), Tx::Keep));
    t.push((str_chars("bugs"), Tx::Bugs));
    t.push((str_chars("license"), Tx::Keep));
    t.push((str_chars("author"), Tx::People));
    t.push((str_chars("maintainers"), Tx::PeopleArr));
    t.push((str_chars("contributors"), Tx::PeopleArr));
    t.push((str_chars("repository"), Tx::TypeUrl));
    t.push((str_chars("funding"), Tx::TypeUrl));
    t.push((str_chars("donate"), Tx::TypeUrl));
    t.push((str_chars("sponsor"), Tx::TypeUrl));
    t.push((str_chars("qna"), Tx::Keep));
    t.push((str_chars("publisher"), Tx::Keep));
    t.push((str_chars("man"), Tx::Keep));
    proof {
        assert(tabview(t@) =~= t0 + schema_a());
    }
}

fn push_schema_b(t: &mut Vec<(Vec<char>, Tx)>)
    ensures
        tabview(final(t)@) == tabview(old(t)@) + schema_b(),
{
    let ghost t0 = tabview(old(t)@);
    t.push((str_chars("style"), Tx::Keep));
    t.push((str_chars("example"), Tx::Keep));
    t.push((str_chars("examplestyle"), Tx::Keep));
    t.push((str_chars("assets"), Tx::Keep));
    t.push((str_chars("bin"), Tx::Alpha));
    t.push((str_chars("source"), Tx::Keep));
    t.push((str_chars("directories"), Tx::Directories));
    t.push((str_chars("workspaces"), Tx::Keep));
    t.push((str_chars("binary"), Tx::Binary));
    t.push((str_chars("files"), Tx::Uniq));
    t.push((str_chars("os"), Tx::Keep));
    t.push((str_chars("cpu"), Tx::Keep));
    t.push((str_chars("libc"), Tx::Uniq));
    t.push((str_chars("type"), Tx::Keep));
    t.push((str_chars("sideEffects"), Tx::Keep));
    t.push((str_chars("main"), Tx::Keep));
    t.push((str_chars("module"), Tx::Keep));
    t.push((str_chars("browser"), Tx::Keep));
    t.push((str_chars("types"), Tx::Keep));
    t.push((str_chars("typings"), Tx::Keep));
    t.push((str_chars("typesVersions"), Tx::Keep));
    t.push((str_chars("typeScriptVersion"), Tx::Keep));
    t.push((str_chars("typesPublisherContentHash"), Tx::Keep));
    proof {
        assert(tabview(t@) =~= t0 + schema_b());
    }
}

fn push_schema_c(t: &mut Vec<(Vec<char>, Tx)>)
    ensures
        tabview(final(t)@) == tabview(old(t)@) + schema_c(),
{
    let ghost t0 = tabview(old(t)@);
    t.push((str_chars("react-native"), Tx::Keep));
    t.push((str_chars("svelte"), Tx::Keep));
    t.push((str_chars("unpkg"), Tx::Keep));
    t.push((str_chars("jsdelivr"), Tx::Keep));
    t.push((str_chars("jsnext:main"), Tx::Keep));
    t.push((str_chars("umd"), Tx::Keep));
    t.push((str_chars("umd:main"), Tx::Keep));
    t.push((str_chars("es5"), Tx::Keep));
    t.push((str_chars("esm5"), Tx::Keep));
    t.push((str_chars("fesm5"), Tx::Keep));
    t.push((str_chars("es2015"), Tx::Keep));
    t.push((str_chars("esm2015"), Tx::Keep));
    t.push((str_chars("fesm2015"), Tx::Keep));
    t.push((str_chars("es2020"), Tx::Keep));
    t.push((str_chars("esm2020"), Tx::Keep));
    t.push((str_chars("fesm2020"), Tx::Keep));
    t.push((str_chars("esnext"), Tx::Keep));
    t.push((str_chars("imports"), Tx::Keep));
    t.push((str_chars("exports"), Tx::Exports));
    t.push((str_chars("publishConfig"), Tx::Alpha));
    t.push((str_chars("scripts"), Tx::Keep));
    t.push((str_chars("betterScripts"), Tx::Keep));
    t.push((str_chars("dependencies"), Tx::Alpha));
    proof {
        assert(tabview(t@) =~= t0 + schema_c());
    }
}

fn push_schema_d(t: &mut Vec<(Vec<char>, Tx)>)
    ensures
        tabview(final(t)@) == tabview(old(t)@) + schema_d(),
{
    let ghost t0 = tabview(old(t)@);
    t.push((str_chars("devDependencies"), Tx::Alpha));
    t.push((str_chars("dependenciesMeta"), Tx::Keep));
    t.push((str_chars("peerDependencies"), Tx::Alpha));
    t.push((str_chars("peerDependenciesMeta"), Tx::Keep));
    t.push((str_chars("optionalDependencies"), Tx::Alpha));
    t.push((str_chars("bundledDependencies"), Tx::Uniq));
    t.push((str_chars("bundleDependencies"), Tx::Uniq));
    t.push((str_chars("resolutions"), Tx::Alpha));
    t.push((str_chars("overrides"), Tx::Alpha));
    t.push((str_chars("husky"), Tx::Rec));
    t.push((str_chars("simple-git-hooks"), Tx::Keep));
    t.push((str_chars("pre-commit"), Tx::Keep));
    t.push((str_chars("lint-staged"), Tx::Keep));
    t.push((str_chars("nano-staged"), Tx::Keep));
    t.push((str_chars("commitlint"), Tx::Rec));
    t.push((str_chars("l10n"), Tx::Keep));
    t.push((str_chars("contributes"), Tx::Keep));
    t.push((str_chars("activationEvents"), Tx::Uniq));
    t.push((str_chars("extensionPack"), Tx::Uniq));
    t.push((str_chars("extensionDependencies"), Tx::Uniq));
    t.push((str_chars("extensionKind"), Tx::Uniq));
    t.push((str_chars("icon"), Tx::Keep));
    t.push((str_chars("badges"), Tx::Keep));
    proof {
        assert(tabview(t@) =~= t0 + schema_d());
    }
}

fn push_schema_e(t: &mut Vec<(Vec<char>, Tx)>)
    ensures
        tabview(final(t)@) == tabview(old(t)@) + schema_e(),
{
    let ghost t0 = tabview(old(t)@);
    t.push((str_chars("galleryBanner"), Tx::Keep));
    t.push((str_chars("preview"), Tx::Keep));
    t.push((str_chars("markdown"), Tx::Keep));
    t.push((str_chars("napi"), Tx::Alpha));
    t.push((str_chars("flat"), Tx::Keep));
    t.push((str_chars("config"), Tx::Alpha));
    t.push((str_chars("nodemonConfig"), Tx::Rec));
    t.push((str_chars("browserify"), Tx::Rec));
    t.push((str_chars("babel"), Tx::Rec));
    t.push((str_chars("browserslist"), Tx::Keep));
    t.push((str_chars("xo"), Tx::Rec));
    t.push((str_chars("prettier"), Tx::Rec));
    t.push((str_chars("eslintConfig"), Tx::Rec));
    t.push((str_chars("eslintIgnore"), Tx::Keep));
    t.push((str_chars("standard"), Tx::Rec));
    t.push((str_chars("npmpkgjsonlint"), Tx::Keep));
    t.push((str_chars("npmPackageJsonLintConfig"), Tx::Keep));
    t.push((str_chars("npmpackagejsonlint"), Tx::Keep));
    t.push((str_chars("release"), Tx::Keep));
    t.push((str_chars("auto-changelog"), Tx::Rec));
    t.push((str_chars("remarkConfig"), Tx::Rec));
    t.push((str_chars("stylelint"), Tx::Rec));
    t.push((str_chars("typescript"), Tx::Rec));
    proof {
        assert(tabview(t@) =~= t0 + schema_e());
    }
}

fn push_schema_f(t: &mut Vec<(Vec<char>, Tx)>)
    ensures
        tabview(final(t)@) == tabview(old(t)@) + schema_f(),
{
    let ghost t0 = tabview(old(t)@);
    t.push((str_chars("typedoc"), Tx::Rec));
    t.push((str_chars("tshy"), Tx::Rec));
    t.push((str_chars("tsdown"), Tx::Rec));
    t.push((str_chars("size-limit"), Tx::Uniq));
    t.push((str_chars("ava"), Tx::Rec));
    t.push((str_chars("jest"), Tx::Rec));
    t.push((str_chars("jest-junit"), Tx::Keep));
    t.push((str_chars("jest-stare"), Tx::Keep));
    t.push((str_chars("mocha"), Tx::Rec));
    t.push((str_chars("nyc"), Tx::Rec));
    t.push((str_chars("c8"), Tx::Rec));
    t.push((str_chars("tap"), Tx::Keep));
    t.push((str_chars("tsd"), Tx::Rec));
    t.push((str_chars("typeCoverage"), Tx::Rec));
    t.push((str_chars("oclif"), Tx::Rec));
    t.push((str_chars("languageName"), Tx::Keep));
    t.push((str_chars("preferGlobal"), Tx::Keep));
    t.push((str_chars("devEngines"), Tx::Alpha));
    t.push((str_chars("engines"), Tx::Alpha));
    t.push((str_chars("engineStrict"), Tx::Keep));
    t.push((str_chars("volta"), Tx::Rec));
    t.push((str_chars("packageManager"), Tx::Keep));
    t.push((str_chars("pnpm"), Tx::Keep));
    proof {
        assert(tabview(t@) =~= t0 + schema_f());
    }
}

/// The whole registry, in priority order.
pub open spec fn schema() -> Seq<(Seq<char>, Tx)> {
    schema_a() + schema_b() + schema_c() + schema_d() + schema_e() + schema_f()
}

/// The first match for `k` in the registry at or after position `i`.
#[verifier::opaque]
pub open spec fn lookup_at(k: Seq<char>, i: int) -> Option<(int, Tx)>
    decreases schema().len() - i,
{
    if i < 0 || i >= schema().len() {
        Option::None
    } else if schema()[i].0 == k {
        Option::Some((i, schema()[i].1))
    } else {
        lookup_at(k, i + 1)
    }
}

/// The priority and transform of a recognized field; `None` for an unknown
/// one.
pub open spec fn rank_of(k: Seq<char>) -> Option<(int, Tx)> {
    lookup_at(k, 0)
}

/// The executable registry.
pub struct Schema {
    pub table: Vec<(Vec<char>, Tx)>,
}

impl Schema {
    /// The table holds exactly the registry.
    pub open spec fn inv(&self) -> bool {
        tabview(self.table@) == schema()
    }

    /// Build the registry.
    pub fn new() -> (r: Schema)
        ensures
            r.inv(),
    {
        let mut t: Vec<(Vec<char>, Tx)> = Vec::new();
        proof {
            assert(tabview(t@) =~= Seq::empty());
        }
        push_schema_a(&mut t);
        push_schema_b(&mut t);
        push_schema_c(&mut t);
        push_schema_d(&mut t);
        push_schema_e(&mut t);
        push_schema_f(&mut t);
        proof {
            assert(tabview(t@) =~= schema());
        }
        Schema { table: t }
    }

    /// Look a key up; the result is its priority and transform tag.
    pub fn lookup(&self, k: &Vec<char>) -> (r: Option<(usize, Tx)>)
        requires
            self.inv(),
        ensures
            match r {
                Option::Some((p, t)) => rank_of(k@) == Option::Some((p as int, t)),
                Option::None => rank_of(k@) is None,
            },
    {
        let n = self.table.len();
        proof {
            reveal(crate::schema::lookup_at);
            assert(tabview(self.table@).len() == schema().len());
        }
        let mut i: usize = 0;
        while i < n
            invariant
                self.inv(),
                n == self.table@.len() == schema().len(),
                0 <= i <= n,
                rank_of(k@) == lookup_at(k@, i as int),
            decreases n - i,
        {
            proof {
                reveal(crate::schema::lookup_at);
                assert(schema()[i as int] == tview(self.table@[i as int]));
            }
            if crate::order::chars_eq_exec(k, &self.table[i].0) {
                return Option::Some((i, self.table[i].1));
            }
            i = i + 1;
        }
        Option::None
    }
}

} // verus!
