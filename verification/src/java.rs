//! The Java backend: groups source files into modules, infers
//! inter-module dependencies from the source texts, and emits compile,
//! packaging and run actions.

use vstd::prelude::*;
use crate::executor::Executor;
use crate::package::Bobje;
use crate::paths::{
    dots_to_seps, ends_with, find_last_dot, find_sub, first_occur_from, join_strings, join_with,
    last_dot, occurs_at, replace_dots_with_seps, replace_seps_with_dots, seps_to_dots,
    str_ends_with, str_equal, trim_java_suffix, trim_suffix, vec_contains_str,
};
use crate::scan::{
    has_main_signature, import_match, import_references, main_signature_match, text_lookup,
    SourceTexts,
};
use crate::task::{ConfigError, TaskView};

verus! {

/// A named grouping of source files: a Java package, with its members in
/// discovery order.
pub struct Module {
    pub name: String,
    pub source_files: Vec<String>,
}

/// The mathematical content of a [`Module`].
#[verifier::ext_equal]
pub ghost struct ModuleView {
    pub name: Seq<char>,
    pub files: Seq<Seq<char>>,
}

impl View for Module {
    type V = ModuleView;

    open spec fn view(&self) -> ModuleView {
        ModuleView { name: self.name@, files: self.source_files.deep_view() }
    }
}

impl DeepView for Module {
    type V = ModuleView;

    open spec fn deep_view(&self) -> ModuleView {
        self.view()
    }
}

impl Clone for Module {
    fn clone(&self) -> (r: Self)
        ensures
            r@ == self@,
    {
        Module { name: self.name.clone(), source_files: self.source_files.clone() }
    }
}

/// The part of `path` that follows the first occurrence of `root`, up to
/// the next occurrence of `root`, if `root` occurs at all.
pub open spec fn root_piece(path: Seq<char>, root: Seq<char>) -> Option<Seq<char>> {
    match first_occur_from(path, root, 0) {
        Some(k) => {
            let seg = path.subrange(k + root.len(), path.len() as int);
            match first_occur_from(seg, root, 0) {
                Some(j) => Some(seg.subrange(0, j)),
                None => Some(seg),
            }
        },
        None => None,
    }
}

/// The qualified class name of a source file: its path relative to the
/// first `src/` (or, failing that, `src-gen/`) source root, with every
/// trailing `.java` removed and separators turned into dots.  `None` for
/// a file under no recognized source root.
pub open spec fn class_name_of(path: Seq<char>) -> Option<Seq<char>> {
    match root_piece(path, "src/"@) {
        Some(piece) => Some(seps_to_dots(trim_suffix(piece, ".java"@))),
        None => match root_piece(path, "src-gen/"@) {
            Some(piece) => Some(seps_to_dots(trim_suffix(piece, ".java"@))),
            None => None,
        },
    }
}

/// A class name's module: everything before the last dot, or the empty
/// name when there is no dot.
pub open spec fn module_name_of(class: Seq<char>) -> Seq<char> {
    match last_dot(class) {
        Some(i) => class.subrange(0, i),
        None => Seq::empty(),
    }
}

/// The piece of `s` after the first occurrence of `root` and before its
/// next occurrence, if `root` occurs.
fn root_piece_exec<'a>(s: &'a str, root: &str) -> (r: Option<&'a str>)
    ensures
        match r {
            Some(p) => root_piece(s@, root@) == Some(p@),
            None => root_piece(s@, root@) is None,
        },
{
    proof {
        crate::paths::lemma_first_occur_some(s@, root@, 0);
    }
    let slen = s.unicode_len();
    let rlen = root.unicode_len();
    match find_sub(s, root) {
        Some(k) => {
            proof {
                assert(occurs_at(s@, root@, k as int));
            }
            let seg = s.substring_char(k + rlen, slen);
            proof {
                crate::paths::lemma_first_occur_some(seg@, root@, 0);
            }
            match find_sub(seg, root) {
                Some(j) => {
                    proof {
                        assert(occurs_at(seg@, root@, j as int));
                    }
                    Some(seg.substring_char(0, j))
                },
                None => Some(seg),
            }
        },
        None => None,
    }
}

/// The qualified class name of a source file, or `None` when the file
/// lies under no recognized source root — a fatal configuration error to
/// the callers that need the name.
pub fn get_class_name(source_file: &str) -> (r: Option<String>)
    ensures
        match r {
            Some(s) => class_name_of(source_file@) == Some(s@),
            None => class_name_of(source_file@) is None,
        },
{
    let piece_opt = match root_piece_exec(source_file, "src/") {
        Some(p) => Some(p),
        None => root_piece_exec(source_file, "src-gen/"),
    };
    match piece_opt {
        Some(piece) => {
            let trimmed = trim_java_suffix(piece);
            Some(replace_seps_with_dots(trimmed))
        },
        None => None,
    }
}

/// The module a source file belongs to — its class name with the
/// innermost identifier removed — or `None` under no recognized root.
pub fn get_module_name(source_file: &str) -> (r: Option<String>)
    ensures
        match r {
            Some(s) => match class_name_of(source_file@) {
                Some(c) => s@ == module_name_of(c),
                None => false,
            },
            None => class_name_of(source_file@) is None,
        },
{
    match get_class_name(source_file) {
        Some(class) => {
            match find_last_dot(class.as_str()) {
                Some(i) => {
                    proof {
                        crate::paths::lemma_last_dot(class@);
                    }
                    Some(String::from_str(class.as_str().substring_char(0, i)))
                },
                None => Some(String::new()),
            }
        },
        None => None,
    }
}

/// `modules` with `file` added to the first module named `mname`, or with
/// a new module of that name at the end.
pub open spec fn insert_file(modules: Seq<ModuleView>, mname: Seq<char>, file: Seq<char>) -> Seq<
    ModuleView,
>
    decreases modules.len(),
{
    if modules.len() == 0 {
        seq![ModuleView { name: mname, files: seq![file] }]
    } else if modules[0].name == mname {
        seq![ModuleView { name: modules[0].name, files: modules[0].files.push(file) }]
            + modules.drop_first()
    } else {
        seq![modules[0]] + insert_file(modules.drop_first(), mname, file)
    }
}

/// `insert_file` updates the first module whose name matches.
proof fn lemma_insert_file_at(modules: Seq<ModuleView>, mname: Seq<char>, file: Seq<char>, k: int)
    requires
        0 <= k < modules.len(),
        modules[k].name == mname,
        forall|j: int| 0 <= j < k ==> #[trigger] modules[j].name != mname,
    ensures
        insert_file(modules, mname, file) =~= modules.update(
            k,
            ModuleView { name: modules[k].name, files: modules[k].files.push(file) },
        ),
    decreases k,
{
    if k == 0 {
    } else {
        lemma_insert_file_at(modules.drop_first(), mname, file, k - 1);
    }
}

/// `insert_file` appends a new module when no name matches.
proof fn lemma_insert_file_new(modules: Seq<ModuleView>, mname: Seq<char>, file: Seq<char>)
    requires
        forall|j: int| 0 <= j < modules.len() ==> #[trigger] modules[j].name != mname,
    ensures
        insert_file(modules, mname, file) =~= modules.push(
            ModuleView { name: mname, files: seq![file] },
        ),
    decreases modules.len(),
{
    if modules.len() > 0 {
        lemma_insert_file_new(modules.drop_first(), mname, file);
    }
}

/// The modules after the package's own source files, from index `i` on,
/// are folded in: each `.java` file joins the first module bearing its
/// module name.  `None` when a `.java` file lies under no source root.
pub open spec fn add_own_files(
    modules: Seq<ModuleView>,
    files: Seq<Seq<char>>,
    i: int,
) -> Option<Seq<ModuleView>>
    decreases files.len() - i when i >= 0
{
    if i < 0 || i >= files.len() {
        Some(modules)
    } else if !ends_with(files[i], ".java"@) {
        add_own_files(modules, files, i + 1)
    } else {
        match class_name_of(files[i]) {
            None => None,
            Some(c) => add_own_files(insert_file(modules, module_name_of(c), files[i]), files, i + 1),
        }
    }
}

/// The modules of the dependency packages from index `i` on, in
/// declaration order, each computed by [`find_modules_spec`].
pub open spec fn modules_of_deps(deps: Seq<Bobje>, i: int) -> Option<Seq<ModuleView>>
    decreases deps, 0int, deps.len() - i when i >= 0
{
    if i < 0 || i >= deps.len() {
        Some(Seq::empty())
    } else {
        match (find_modules_spec(deps[i]), modules_of_deps(deps, i + 1)) {
            (Some(a), Some(b)) => Some(a + b),
            _ => None,
        }
    }
}

/// Module discovery: the modules of every transitive dependency first,
/// then the package's own `.java` files folded in.
pub open spec fn find_modules_spec(b: Bobje) -> Option<Seq<ModuleView>>
    decreases b, 1int, 0int,
{
    match modules_of_deps(b.dependencies@, 0) {
        None => None,
        Some(ms) => add_own_files(ms, b.source_files.deep_view(), 0),
    }
}

/// Push a module, tracking the vector's contents as module views.
fn push_module(modules: &mut Vec<Module>, m: Module)
    ensures
        final(modules).deep_view() == old(modules).deep_view().push(m@),
{
    let ghost pre = modules@;
    let ghost mv = m@;
    let ghost mval = m;
    modules.push(m);
    proof {
        let target = old(modules).deep_view().push(mv);
        assert(modules.deep_view().len() == target.len());
        assert forall|i: int| 0 <= i < target.len() implies #[trigger] modules.deep_view()[i]
            == target[i] by {
            if i < pre.len() {
                assert(modules@[i] == pre[i]);
            } else {
                assert(modules@[i] == mval);
            }
        }
        assert(modules.deep_view() =~= target);
    }
}

/// A source file of one of the dependency packages from index `i` on.
pub open spec fn deps_tree_has(deps: Seq<Bobje>, i: int, f: Seq<char>) -> bool
    decreases deps, 0int, deps.len() - i when i >= 0
{
    if i < 0 || i >= deps.len() {
        false
    } else {
        tree_has_file(deps[i], f) || deps_tree_has(deps, i + 1, f)
    }
}

/// A source file of the package or of any of its transitive
/// dependencies.
pub open spec fn tree_has_file(b: Bobje, f: Seq<char>) -> bool
    decreases b, 1int, 0int,
{
    b.source_files.deep_view().contains(f) || deps_tree_has(b.dependencies@, 0, f)
}

/// A file of one dependency is a file of the dependency list.
proof fn lemma_deps_tree_has(deps: Seq<Bobje>, j: int, d: int, f: Seq<char>)
    requires
        0 <= j <= d < deps.len(),
        tree_has_file(deps[d], f),
    ensures
        deps_tree_has(deps, j, f),
    decreases d - j,
{
    if j < d {
        lemma_deps_tree_has(deps, j + 1, d, f);
    }
}

/// Add `file` to the first module of `modules` named `mname`, or append a
/// new module of that name.
fn insert_module(modules: &mut Vec<Module>, mname: String, file: String)
    ensures
        final(modules).deep_view() == insert_file(old(modules).deep_view(), mname@, file@),
{
    let ghost gm = mname@;
    let ghost gf = file@;
    let mut k: usize = 0;
    while k < modules.len()
        invariant
            k <= modules@.len(),
            gm == mname@,
            gf == file@,
            modules@ == old(modules)@,
            forall|j: int| 0 <= j < k ==> #[trigger] modules.deep_view()[j].name != mname@,
        decreases modules@.len() - k,
    {
        if str_equal(modules[k].name.as_str(), mname.as_str()) {
            let mut updated = modules[k].clone();
            let ghost cloned = updated@;
            crate::paths::push_string(&mut updated.source_files, file);
            let ghost before = modules.deep_view();
            proof {
                assert(cloned == before[k as int]);
                assert(updated@ =~~= ModuleView {
                    name: before[k as int].name,
                    files: before[k as int].files.push(gf),
                });
            }
            modules.set(k, updated);
            proof {
                lemma_insert_file_at(before, gm, gf, k as int);
                assert(modules.deep_view() =~~= before.update(
                    k as int,
                    ModuleView {
                        name: before[k as int].name,
                        files: before[k as int].files.push(gf),
                    },
                ));
            }
            return ;
        }
        k += 1;
    }
    let ghost before = modules.deep_view();
    let ghost fval = file;
    let nm = Module { name: mname, source_files: vec![file] };
    proof {
        assert(nm.source_files@[0] == fval);
        assert(nm.source_files.deep_view() =~= seq![gf]);
        assert(nm@ =~~= ModuleView { name: gm, files: seq![gf] });
    }
    push_module(modules, nm);
    proof {
        lemma_insert_file_new(before, gm, gf);
    }
}

/// Collect the modules of the package and of all its transitive
/// dependencies, dependency modules first.  Fails exactly when some
/// `.java` file lies under no recognized source root.
pub fn find_modules(bobje: &Bobje) -> (r: Result<Vec<Module>, ConfigError>)
    ensures
        match r {
            Ok(ms) => find_modules_spec(*bobje) == Some(ms.deep_view()),
            Err(ConfigError::SourceOutsideRoot(p)) => find_modules_spec(*bobje) is None
                && class_name_of(p@) is None && ends_with(p@, ".java"@) && tree_has_file(
                *bobje,
                p@,
            ),
            Err(_) => false,
        },
    decreases *bobje, 2int, 0int,
{
    let ghost deps = bobje.dependencies@;
    let mut modules: Vec<Module> = Vec::new();
    let mut d: usize = 0;
    while d < bobje.dependencies.len()
        invariant
            deps == bobje.dependencies@,
            d <= deps.len(),
            forall|suffix: Seq<ModuleView>|
                modules_of_deps(deps, d as int) == Some(suffix) ==> modules_of_deps(deps, 0)
                    == Some(#[trigger] (modules.deep_view() + suffix)),
            modules_of_deps(deps, d as int) is None ==> modules_of_deps(deps, 0) is None,
        decreases deps.len() - d,
    {
        let ghost before = modules.deep_view();
        match find_modules(&bobje.dependencies[d]) {
            Ok(mut sub) => {
                let ghost subv = sub.deep_view();
                let mut s: usize = 0;
                while s < sub.len()
                    invariant
                        s <= sub@.len(),
                        subv == sub.deep_view(),
                        modules.deep_view() == before + subv.subrange(0, s as int),
                    decreases sub@.len() - s,
                {
                    let cl = sub[s].clone();
                    push_module(&mut modules, cl);
                    proof {
                        assert(modules.deep_view() =~= before + subv.subrange(0, s + 1));
                    }
                    s += 1;
                }
                proof {
                    assert(subv.subrange(0, subv.len() as int) =~= subv);
                    assert(modules.deep_view() == before + subv);
                    assert forall|suffix: Seq<ModuleView>|
                        modules_of_deps(deps, d + 1) == Some(suffix) implies modules_of_deps(
                        deps,
                        0,
                    ) == Some(#[trigger] (modules.deep_view() + suffix)) by {
                        assert(modules_of_deps(deps, d as int) == Some(subv + suffix));
                        assert(before + (subv + suffix) =~= (before + subv) + suffix);
                    }
                    assert(modules_of_deps(deps, d + 1) is None ==> modules_of_deps(
                        deps,
                        d as int,
                    ) is None);
                }
            },
            Err(e) => {
                proof {
                    assert(modules_of_deps(deps, d as int) is None);
                    if let ConfigError::SourceOutsideRoot(p) = &e {
                        lemma_deps_tree_has(deps, 0, d as int, p@);
                    }
                }
                return Err(e);
            },
        }
        d += 1;
    }
    proof {
        assert(modules_of_deps(deps, deps.len() as int) == Some(Seq::<ModuleView>::empty()));
        assert(modules.deep_view() + Seq::<ModuleView>::empty() =~= modules.deep_view());
        assert(modules_of_deps(deps, 0) == Some(modules.deep_view()));
    }
    let ghost base = modules.deep_view();
    let ghost files = bobje.source_files.deep_view();
    let mut i: usize = 0;
    while i < bobje.source_files.len()
        invariant
            files == bobje.source_files.deep_view(),
            i <= files.len(),
            find_modules_spec(*bobje) == add_own_files(base, files, 0),
            add_own_files(base, files, 0) == add_own_files(modules.deep_view(), files, i as int),
        decreases files.len() - i,
    {
        proof {
            reveal_strlit(".java");
        }
        let f = &bobje.source_files[i];
        if str_ends_with(f.as_str(), ".java") {
            match get_module_name(f.as_str()) {
                Some(mname) => {
                    insert_module(&mut modules, mname, f.clone());
                },
                None => {
                    proof {
                        assert(bobje.source_files.deep_view()[i as int] == f@);
                        assert(bobje.source_files.deep_view().contains(f@));
                    }
                    return Err(ConfigError::SourceOutsideRoot(f.clone()));
                },
            }
        }
        i += 1;
    }
    Ok(modules)
}

/// A module named `mname` holds the file `f`.
pub open spec fn module_holds(ms: Seq<ModuleView>, mname: Seq<char>, f: Seq<char>) -> bool {
    exists|k: int|
        0 <= k < ms.len() && #[trigger] ms[k].name == mname && ms[k].files.contains(f)
}

/// Inserting a file makes some module of its name hold it.
proof fn lemma_insert_file_holds(modules: Seq<ModuleView>, mname: Seq<char>, f: Seq<char>)
    ensures
        module_holds(insert_file(modules, mname, f), mname, f),
    decreases modules.len(),
{
    let res = insert_file(modules, mname, f);
    if modules.len() == 0 {
        assert(res[0].name == mname);
        assert(res[0].files[0] == f);
    } else if modules[0].name == mname {
        assert(res[0].name == mname);
        assert(res[0].files.last() == f);
    } else {
        lemma_insert_file_holds(modules.drop_first(), mname, f);
        let sub = insert_file(modules.drop_first(), mname, f);
        let k = choose|k: int|
            0 <= k < sub.len() && #[trigger] sub[k].name == mname && sub[k].files.contains(f);
        assert(res[k + 1] == sub[k]);
    }
}

/// Inserting another file never takes a held file away.
proof fn lemma_insert_file_keeps(
    modules: Seq<ModuleView>,
    mname: Seq<char>,
    f: Seq<char>,
    held_name: Seq<char>,
    held: Seq<char>,
)
    requires
        module_holds(modules, held_name, held),
    ensures
        module_holds(insert_file(modules, mname, f), held_name, held),
    decreases modules.len(),
{
    let res = insert_file(modules, mname, f);
    let k = choose|k: int|
        0 <= k < modules.len() && #[trigger] modules[k].name == held_name
            && modules[k].files.contains(held);
    if modules[0].name == mname {
        if k == 0 {
            let j = choose|j: int|
                0 <= j < modules[0].files.len() && modules[0].files[j] == held;
            assert(res[0].name == held_name);
            assert(res[0].files[j] == held);
        } else {
            assert(res[k] == modules[k]);
        }
    } else {
        if k == 0 {
            assert(res[0] == modules[0]);
        } else {
            assert(modules.drop_first()[k - 1] == modules[k]);
            assert(module_holds(modules.drop_first(), held_name, held));
            lemma_insert_file_keeps(modules.drop_first(), mname, f, held_name, held);
            let sub = insert_file(modules.drop_first(), mname, f);
            let k2 = choose|k2: int|
                0 <= k2 < sub.len() && #[trigger] sub[k2].name == held_name && sub[k2].files.contains(
                    held,
                );
            assert(res[k2 + 1] == sub[k2]);
        }
    }
}

/// Module grouping: when discovery succeeds, every one of the folded-in
/// `.java` files belongs to a module named by its path — the file's
/// qualified name with its innermost identifier removed.
pub proof fn lemma_every_file_grouped(
    modules: Seq<ModuleView>,
    files: Seq<Seq<char>>,
    i: int,
    k: int,
    res: Seq<ModuleView>,
)
    requires
        add_own_files(modules, files, i) == Some(res),
        0 <= i <= k < files.len(),
        ends_with(files[k], ".java"@),
    ensures
        class_name_of(files[k]) is Some,
        module_holds(res, module_name_of(class_name_of(files[k]).unwrap()), files[k]),
    decreases k - i,
{
    if !ends_with(files[i], ".java"@) {
        if i == k {
            assert(false);
        }
        lemma_every_file_grouped(modules, files, i + 1, k, res);
    } else {
        let c = class_name_of(files[i]).unwrap();
        let next = insert_file(modules, module_name_of(c), files[i]);
        if i == k {
            lemma_insert_file_holds(modules, module_name_of(c), files[i]);
            lemma_own_files_keep(next, files, i + 1, module_name_of(c), files[i], res);
        } else {
            lemma_every_file_grouped(next, files, i + 1, k, res);
        }
    }
}

/// Folding further files in keeps every held file held.
proof fn lemma_own_files_keep(
    modules: Seq<ModuleView>,
    files: Seq<Seq<char>>,
    i: int,
    held_name: Seq<char>,
    held: Seq<char>,
    res: Seq<ModuleView>,
)
    requires
        add_own_files(modules, files, i) == Some(res),
        module_holds(modules, held_name, held),
        0 <= i,
    ensures
        module_holds(res, held_name, held),
    decreases files.len() - i,
{
    if i >= files.len() {
    } else if !ends_with(files[i], ".java"@) {
        lemma_own_files_keep(modules, files, i + 1, held_name, held, res);
    } else {
        let c = class_name_of(files[i]).unwrap();
        let next = insert_file(modules, module_name_of(c), files[i]);
        lemma_insert_file_keeps(modules, module_name_of(c), files[i], held_name, held);
        lemma_own_files_keep(next, files, i + 1, held_name, held, res);
    }
}

/// Whether any source file of the package carries the Java extension.
pub fn detect_java(bobje: &Bobje) -> (r: bool)
    ensures
        r == exists|k: int|
            0 <= k < bobje.source_files.deep_view().len() && ends_with(
                #[trigger] bobje.source_files.deep_view()[k],
                ".java"@,
            ),
{
    let mut i: usize = 0;
    while i < bobje.source_files.len()
        invariant
            i <= bobje.source_files@.len(),
            forall|k: int|
                0 <= k < i ==> !ends_with(#[trigger] bobje.source_files.deep_view()[k], ".java"@),
        decreases bobje.source_files@.len() - i,
    {
        if str_ends_with(bobje.source_files[i].as_str(), ".java") {
            assert(ends_with(bobje.source_files.deep_view()[i as int], ".java"@));
            return true;
        }
        i += 1;
    }
    false
}

/// Whether the manifest declares archive packaging metadata.
pub fn detect_jar(bobje: &Bobje) -> (r: bool)
    ensures
        r == bobje.jar is Some,
{
    bobje.jar.is_some()
}

/// The modules, among `all` from index `j` on, that one source text of a
/// module named `mname` references.  A file with no text references
/// nothing.
pub open spec fn deps_for_file(
    text: Option<Seq<char>>,
    mname: Seq<char>,
    all: Seq<ModuleView>,
    j: int,
) -> Seq<ModuleView>
    decreases all.len() - j when j >= 0
{
    if j < 0 || j >= all.len() {
        Seq::empty()
    } else {
        let rest = deps_for_file(text, mname, all, j + 1);
        if all[j].name != mname && (match text {
            Some(t) => import_references(t, all[j].name),
            None => false,
        }) {
            seq![all[j]] + rest
        } else {
            rest
        }
    }
}

/// The modules of `all` that the files of `m`, from index `i` on,
/// textually reference — with one entry per referencing file, as the
/// scan finds them.
pub open spec fn module_deps_spec(
    m: ModuleView,
    all: Seq<ModuleView>,
    texts: Seq<crate::scan::SourceText>,
    i: int,
) -> Seq<ModuleView>
    decreases m.files.len() - i when i >= 0
{
    if i < 0 || i >= m.files.len() {
        Seq::empty()
    } else {
        deps_for_file(text_lookup(texts, m.files[i]), m.name, all, 0) + module_deps_spec(
            m,
            all,
            texts,
            i + 1,
        )
    }
}

/// The modules that the files of `m` textually reference, scanning every
/// file of `m` against every other module in scope.  A file whose text
/// is missing contributes nothing.
pub fn find_dependencies(m: &Module, modules: &Vec<Module>, texts: &SourceTexts) -> (r: Vec<
    Module,
>)
    ensures
        r.deep_view() == module_deps_spec(m@, modules.deep_view(), texts.files@, 0),
{
    let ghost mv = m@;
    let ghost allv = modules.deep_view();
    let ghost tf = texts.files@;
    let mut deps: Vec<Module> = Vec::new();
    let mut i: usize = 0;
    while i < m.source_files.len()
        invariant
            mv == m@,
            allv == modules.deep_view(),
            tf == texts.files@,
            i <= m.source_files@.len(),
            module_deps_spec(mv, allv, tf, 0) == deps.deep_view() + module_deps_spec(
                mv,
                allv,
                tf,
                i as int,
            ),
        decreases m.source_files@.len() - i,
    {
        let ghost tl = text_lookup(tf, mv.files[i as int]);
        let text = texts.lookup(m.source_files[i].as_str());
        let ghost before_file = deps.deep_view();
        let mut j: usize = 0;
        while j < modules.len()
            invariant
                mv == m@,
                allv == modules.deep_view(),
                tf == texts.files@,
                i < m.source_files@.len(),
                j <= modules@.len(),
                tl == text_lookup(tf, mv.files[i as int]),
                match text {
                    Some(t) => tl == Some(t@),
                    None => tl is None,
                },
                deps.deep_view() + deps_for_file(tl, mv.name, allv, j as int) == before_file
                    + deps_for_file(tl, mv.name, allv, 0),
            decreases modules@.len() - j,
        {
            let wanted = match &text {
                Some(t) => {
                    !str_equal(modules[j].name.as_str(), m.name.as_str()) && import_match(
                        t.as_str(),
                        modules[j].name.as_str(),
                    )
                },
                None => false,
            };
            if wanted {
                let ghost before = deps.deep_view();
                let cl = modules[j].clone();
                push_module(&mut deps, cl);
                proof {
                    assert(deps.deep_view() =~= before + seq![allv[j as int]]);
                    assert(deps.deep_view() + deps_for_file(tl, mv.name, allv, j + 1) =~= before
                        + (seq![allv[j as int]] + deps_for_file(tl, mv.name, allv, j + 1)));
                }
            }
            j += 1;
        }
        proof {
            assert(deps_for_file(tl, mv.name, allv, allv.len() as int) =~= Seq::<
                ModuleView,
            >::empty());
            assert(deps.deep_view() + Seq::<ModuleView>::empty() =~= deps.deep_view());
            assert(module_deps_spec(mv, allv, tf, i as int) == deps_for_file(tl, mv.name, allv, 0)
                + module_deps_spec(mv, allv, tf, i + 1));
            assert(module_deps_spec(mv, allv, tf, 0) == before_file + deps_for_file(
                tl,
                mv.name,
                allv,
                0,
            ) + module_deps_spec(mv, allv, tf, i + 1));
            assert(before_file + deps_for_file(tl, mv.name, allv, 0) + module_deps_spec(
                mv,
                allv,
                tf,
                i + 1,
            ) =~= deps.deep_view() + module_deps_spec(mv, allv, tf, i + 1));
        }
        i += 1;
    }
    proof {
        assert(module_deps_spec(mv, allv, tf, m.source_files@.len() as int) =~= Seq::<
            ModuleView,
        >::empty());
        assert(deps.deep_view() + Seq::<ModuleView>::empty() =~= deps.deep_view());
    }
    deps
}

/// The compiler flags: lint and warnings-as-errors, full debug info in
/// the debug profile and none in release, then any user-declared flags.
pub open spec fn javac_flags_spec(b: Bobje) -> Seq<char> {
    let base = "-Xlint -Werror "@ + (if b.profile is Release {
        "-g:none"@
    } else {
        "-g"@
    });
    if b.javac_flags@.len() > 0 {
        base + " "@ + b.javac_flags@
    } else {
        base
    }
}

/// The classpath: the package's own class directory, then any
/// user-declared entries.
pub open spec fn classpath_spec(b: Bobje) -> Seq<char> {
    if b.classpath@.len() > 0 {
        b.classes_dir_spec() + ":"@ + join_with(b.classpath.deep_view(), ":"@)
    } else {
        b.classes_dir_spec()
    }
}

/// The class directory of one module: the module's name with dots turned
/// into path separators, under `cdir`.
pub open spec fn module_out_dir_spec(cdir: Seq<char>, name: Seq<char>) -> Seq<char> {
    cdir + "/"@ + dots_to_seps(name)
}

/// The compile command of one module.
pub open spec fn javac_command_spec(b: Bobje, m: ModuleView) -> Seq<char> {
    "javac "@ + javac_flags_spec(b) + " -cp "@ + classpath_spec(b) + " -d "@ + b.classes_dir_spec()
        + " "@ + join_with(m.files, " "@)
}

/// The declared inputs grown by the class directories of the inferred
/// dependency modules from index `i` on, without repetition.
pub open spec fn add_dep_inputs(
    inputs: Seq<Seq<char>>,
    deps: Seq<ModuleView>,
    cdir: Seq<char>,
    i: int,
) -> Seq<Seq<char>>
    decreases deps.len() - i when i >= 0
{
    if i < 0 || i >= deps.len() {
        inputs
    } else {
        let dir = module_out_dir_spec(cdir, deps[i].name);
        add_dep_inputs(
            if inputs.contains(dir) {
                inputs
            } else {
                inputs.push(dir)
            },
            deps,
            cdir,
            i + 1,
        )
    }
}

/// The declared inputs of one module's compile task: its own source
/// files, plus the class directory of every module it references.
pub open spec fn javac_inputs_spec(
    b: Bobje,
    texts: Seq<crate::scan::SourceText>,
    all: Seq<ModuleView>,
    m: ModuleView,
) -> Seq<Seq<char>> {
    add_dep_inputs(m.files, module_deps_spec(m, all, texts, 0), b.classes_dir_spec(), 0)
}

/// The compile task of one module.
pub open spec fn javac_task_spec(
    b: Bobje,
    texts: Seq<crate::scan::SourceText>,
    all: Seq<ModuleView>,
    m: ModuleView,
) -> TaskView {
    TaskView {
        command: javac_command_spec(b, m),
        inputs: javac_inputs_spec(b, texts, all, m),
        outputs: seq![module_out_dir_spec(b.classes_dir_spec(), m.name)],
    }
}

/// Whether the module holds one of the package's own source files: only
/// such modules get compile tasks; a dependency's modules are visible but
/// not re-emitted.
pub open spec fn has_own_file(m: ModuleView, b: Bobje) -> bool {
    exists|k: int| 0 <= k < m.files.len() && b.source_files.deep_view().contains(#[trigger] m.files[k])
}

/// The compile tasks of the modules of `all` from index `i` on, one per
/// module with an own source file, in module-discovery order.
pub open spec fn emit_javac(
    b: Bobje,
    texts: Seq<crate::scan::SourceText>,
    all: Seq<ModuleView>,
    i: int,
) -> Seq<TaskView>
    decreases all.len() - i when i >= 0
{
    if i < 0 || i >= all.len() {
        Seq::empty()
    } else {
        let rest = emit_javac(b, texts, all, i + 1);
        if has_own_file(all[i], b) {
            seq![javac_task_spec(b, texts, all, all[i])] + rest
        } else {
            rest
        }
    }
}

/// What `generate_javac_tasks` appends: one compile task per own module,
/// or nothing when module discovery fails.
pub open spec fn javac_tasks_spec(b: Bobje, texts: Seq<crate::scan::SourceText>) -> Option<
    Seq<TaskView>,
> {
    match find_modules_spec(b) {
        None => None,
        Some(all) => Some(emit_javac(b, texts, all, 0)),
    }
}

/// Build the compiler flags.
fn build_javac_flags(bobje: &Bobje) -> (r: String)
    ensures
        r@ == javac_flags_spec(*bobje),
{
    let mut flags = String::from_str("-Xlint -Werror ");
    match bobje.profile {
        crate::package::Profile::Release => flags.append("-g:none"),
        crate::package::Profile::Debug => flags.append("-g"),
    }
    if bobje.javac_flags.as_str().unicode_len() > 0 {
        flags.append(" ");
        flags.append(bobje.javac_flags.as_str());
    }
    flags
}

/// Build the classpath.
fn build_classpath(bobje: &Bobje) -> (r: String)
    ensures
        r@ == classpath_spec(*bobje),
{
    let mut cp = bobje.classes_dir();
    if bobje.classpath.len() > 0 {
        cp.append(":");
        let joined = join_strings(&bobje.classpath, ":");
        cp.append(joined.as_str());
        proof {
            assert(cp@ =~= classpath_spec(*bobje));
        }
    }
    cp
}

/// Append the dependency class directories to a module's inputs.
fn build_inputs(m: &Module, deps: &Vec<Module>, bobje: &Bobje) -> (r: Vec<String>)
    ensures
        r.deep_view() == add_dep_inputs(
            m@.files,
            deps.deep_view(),
            bobje.classes_dir_spec(),
            0,
        ),
{
    let ghost cdir = bobje.classes_dir_spec();
    let mut inputs: Vec<String> = Vec::new();
    let mut i: usize = 0;
    while i < m.source_files.len()
        invariant
            i <= m.source_files@.len(),
            inputs.deep_view() =~= m@.files.subrange(0, i as int),
        decreases m.source_files@.len() - i,
    {
        crate::paths::push_string(&mut inputs, m.source_files[i].clone());
        proof {
            assert(inputs.deep_view() =~= m@.files.subrange(0, i + 1));
        }
        i += 1;
    }
    proof {
        assert(m@.files.subrange(0, m.source_files@.len() as int) =~= m@.files);
    }
    let mut d: usize = 0;
    while d < deps.len()
        invariant
            cdir == bobje.classes_dir_spec(),
            d <= deps@.len(),
            add_dep_inputs(m@.files, deps.deep_view(), cdir, 0) == add_dep_inputs(
                inputs.deep_view(),
                deps.deep_view(),
                cdir,
                d as int,
            ),
        decreases deps@.len() - d,
    {
        let mut dir = bobje.classes_dir();
        dir.append("/");
        let seps = replace_dots_with_seps(deps[d].name.as_str());
        dir.append(seps.as_str());
        proof {
            assert(dir@ =~= module_out_dir_spec(cdir, deps.deep_view()[d as int].name));
        }
        if !vec_contains_str(&inputs, dir.as_str()) {
            crate::paths::push_string(&mut inputs, dir);
        }
        d += 1;
    }
    proof {
        assert(add_dep_inputs(inputs.deep_view(), deps.deep_view(), cdir, deps@.len() as int)
            == inputs.deep_view());
    }
    inputs
}

/// Emit one compile task per module holding an own source file: the
/// backend's task generation, deterministic in the package, the texts
/// and the module list.  Fails exactly when module discovery fails.
pub fn generate_javac_tasks(
    bobje: &Bobje,
    texts: &SourceTexts,
    executor: &mut Executor,
) -> (r: Result<(), ConfigError>)
    ensures
        match r {
            Ok(()) => match javac_tasks_spec(*bobje, texts.files@) {
                Some(emitted) => final(executor).tasks_spec() == old(executor).tasks_spec()
                    + emitted,
                None => false,
            },
            Err(ConfigError::SourceOutsideRoot(p)) => javac_tasks_spec(*bobje, texts.files@)
                is None && class_name_of(p@) is None && ends_with(p@, ".java"@) && tree_has_file(
                *bobje,
                p@,
            ) && *final(executor) == *old(executor),
            Err(_) => false,
        },
{
    let ghost tf = texts.files@;
    let modules = match find_modules(bobje) {
        Ok(ms) => ms,
        Err(e) => {
            return Err(e);
        },
    };
    let ghost all = modules.deep_view();
    let flags = build_javac_flags(bobje);
    let classpath = build_classpath(bobje);
    let classes_dir = bobje.classes_dir();
    let ghost base = executor.tasks_spec();
    let mut i: usize = 0;
    while i < modules.len()
        invariant
            tf == texts.files@,
            all == modules.deep_view(),
            flags@ == javac_flags_spec(*bobje),
            classpath@ == classpath_spec(*bobje),
            classes_dir@ == bobje.classes_dir_spec(),
            i <= modules@.len(),
            base + emit_javac(*bobje, tf, all, 0) == executor.tasks_spec() + emit_javac(
                *bobje,
                tf,
                all,
                i as int,
            ),
        decreases modules@.len() - i,
    {
        let m = &modules[i];
        // Does the module hold one of the package's own files?
        let mut own = false;
        let mut k: usize = 0;
        while k < m.source_files.len()
            invariant
                all == modules.deep_view(),
                i < modules@.len(),
                m == modules@[i as int],
                k <= m.source_files@.len(),
                own ==> has_own_file(all[i as int], *bobje),
                !own ==> forall|k0: int|
                    0 <= k0 < k ==> !bobje.source_files.deep_view().contains(
                        #[trigger] m@.files[k0],
                    ),
            decreases m.source_files@.len() - k,
        {
            if vec_contains_str(&bobje.source_files, m.source_files[k].as_str()) {
                own = true;
                assert(bobje.source_files.deep_view().contains(all[i as int].files[k as int]));
            }
            k += 1;
        }
        if own {
            let deps = find_dependencies(m, &modules, texts);
            let inputs = build_inputs(m, &deps, bobje);
            let mut command = String::from_str("javac ");
            command.append(flags.as_str());
            command.append(" -cp ");
            command.append(classpath.as_str());
            command.append(" -d ");
            command.append(classes_dir.as_str());
            command.append(" ");
            let joined = join_strings(&m.source_files, " ");
            command.append(joined.as_str());
            let mut out_dir = bobje.classes_dir();
            out_dir.append("/");
            let seps = replace_dots_with_seps(m.name.as_str());
            out_dir.append(seps.as_str());
            let mut outputs: Vec<String> = Vec::new();
            crate::paths::push_string(&mut outputs, out_dir);
            proof {
                assert(command@ =~= javac_command_spec(*bobje, all[i as int]));
                assert(outputs.deep_view() =~= seq![
                    module_out_dir_spec(bobje.classes_dir_spec(), all[i as int].name),
                ]);
            }
            let ghost before = executor.tasks_spec();
            executor.add_task_cmd(command, inputs, outputs);
            proof {
                assert(executor.tasks_spec().last() =~~= javac_task_spec(
                    *bobje,
                    tf,
                    all,
                    all[i as int],
                ));
                assert(executor.tasks_spec() =~= before + seq![
                    javac_task_spec(*bobje, tf, all, all[i as int]),
                ]);
                assert(executor.tasks_spec() + emit_javac(*bobje, tf, all, i + 1) =~= before + (
                seq![javac_task_spec(*bobje, tf, all, all[i as int])] + emit_javac(
                    *bobje,
                    tf,
                    all,
                    i + 1,
                )));
            }
        } else {
            proof {
                assert(!has_own_file(all[i as int], *bobje));
            }
        }
        i += 1;
    }
    proof {
        assert(emit_javac(*bobje, tf, all, modules@.len() as int) =~= Seq::<TaskView>::empty());
        assert(executor.tasks_spec() + Seq::<TaskView>::empty() =~= executor.tasks_spec());
        assert(find_modules_spec(*bobje) == Some(all));
    }
    Ok(())
}

/// A referencing file puts the referenced module among the inferred
/// dependencies.
proof fn lemma_deps_for_file_contains(
    text: Option<Seq<char>>,
    mname: Seq<char>,
    all: Seq<ModuleView>,
    j0: int,
    j: int,
    t: Seq<char>,
)
    requires
        0 <= j0 <= j < all.len(),
        all[j].name != mname,
        text == Some(t),
        import_references(t, all[j].name),
    ensures
        deps_for_file(text, mname, all, j0).contains(all[j]),
    decreases j - j0,
{
    let rest = deps_for_file(text, mname, all, j0 + 1);
    if j0 == j {
        assert(deps_for_file(text, mname, all, j0)[0] == all[j]);
    } else {
        lemma_deps_for_file_contains(text, mname, all, j0 + 1, j, t);
        let k = choose|k: int| 0 <= k < rest.len() && rest[k] == all[j];
        if all[j0].name != mname && import_references(t, all[j0].name) {
            assert(deps_for_file(text, mname, all, j0)[k + 1] == all[j]);
        }
    }
}

/// A referencing file anywhere in the module puts the referenced module
/// among the inferred dependencies.
proof fn lemma_module_deps_contains(
    m: ModuleView,
    all: Seq<ModuleView>,
    texts: Seq<crate::scan::SourceText>,
    i0: int,
    fi: int,
    j: int,
    t: Seq<char>,
)
    requires
        0 <= i0 <= fi < m.files.len(),
        0 <= j < all.len(),
        all[j].name != m.name,
        text_lookup(texts, m.files[fi]) == Some(t),
        import_references(t, all[j].name),
    ensures
        module_deps_spec(m, all, texts, i0).contains(all[j]),
    decreases fi - i0,
{
    let here = deps_for_file(text_lookup(texts, m.files[i0]), m.name, all, 0);
    let rest = module_deps_spec(m, all, texts, i0 + 1);
    if i0 == fi {
        lemma_deps_for_file_contains(text_lookup(texts, m.files[fi]), m.name, all, 0, j, t);
        let k = choose|k: int| 0 <= k < here.len() && here[k] == all[j];
        assert(module_deps_spec(m, all, texts, i0)[k] == all[j]);
    } else {
        lemma_module_deps_contains(m, all, texts, i0 + 1, fi, j, t);
        let k = choose|k: int| 0 <= k < rest.len() && rest[k] == all[j];
        assert(module_deps_spec(m, all, texts, i0)[here.len() + k] == all[j]);
    }
}

/// Growing the inputs never loses a path.
proof fn lemma_add_dep_inputs_monotone(
    inputs: Seq<Seq<char>>,
    deps: Seq<ModuleView>,
    cdir: Seq<char>,
    i0: int,
    p: Seq<char>,
)
    requires
        0 <= i0,
        inputs.contains(p),
    ensures
        add_dep_inputs(inputs, deps, cdir, i0).contains(p),
    decreases deps.len() - i0,
{
    if i0 < deps.len() {
        let dir = module_out_dir_spec(cdir, deps[i0].name);
        if inputs.contains(dir) {
            lemma_add_dep_inputs_monotone(inputs, deps, cdir, i0 + 1, p);
        } else {
            let k = choose|k: int| 0 <= k < inputs.len() && inputs[k] == p;
            assert(inputs.push(dir)[k] == p);
            lemma_add_dep_inputs_monotone(inputs.push(dir), deps, cdir, i0 + 1, p);
        }
    }
}

/// Every inferred dependency's class directory ends up among the inputs.
proof fn lemma_add_dep_inputs_covers(
    inputs: Seq<Seq<char>>,
    deps: Seq<ModuleView>,
    cdir: Seq<char>,
    i0: int,
    j: int,
)
    requires
        0 <= i0 <= j < deps.len(),
    ensures
        add_dep_inputs(inputs, deps, cdir, i0).contains(module_out_dir_spec(cdir, deps[j].name)),
    decreases j - i0,
{
    let dir = module_out_dir_spec(cdir, deps[i0].name);
    let next = if inputs.contains(dir) {
        inputs
    } else {
        inputs.push(dir)
    };
    if i0 == j {
        if inputs.contains(dir) {
            lemma_add_dep_inputs_monotone(inputs, deps, cdir, i0 + 1, dir);
        } else {
            assert(inputs.push(dir)[inputs.len() as int] == dir);
            lemma_add_dep_inputs_monotone(inputs.push(dir), deps, cdir, i0 + 1, dir);
        }
    } else {
        lemma_add_dep_inputs_covers(next, deps, cdir, i0 + 1, j);
    }
}

/// Every own module's compile task is emitted.
proof fn lemma_emit_contains(
    b: Bobje,
    texts: Seq<crate::scan::SourceText>,
    all: Seq<ModuleView>,
    i0: int,
    i: int,
)
    requires
        0 <= i0 <= i < all.len(),
        has_own_file(all[i], b),
    ensures
        emit_javac(b, texts, all, i0).contains(javac_task_spec(b, texts, all, all[i])),
    decreases i - i0,
{
    let rest = emit_javac(b, texts, all, i0 + 1);
    if i0 == i {
        assert(emit_javac(b, texts, all, i0)[0] == javac_task_spec(b, texts, all, all[i]));
    } else {
        lemma_emit_contains(b, texts, all, i0 + 1, i);
        let k = choose|k: int|
            0 <= k < rest.len() && rest[k] == javac_task_spec(b, texts, all, all[i]);
        if has_own_file(all[i0], b) {
            assert(emit_javac(b, texts, all, i0)[k + 1] == javac_task_spec(b, texts, all, all[i]));
        }
    }
}

/// Dependency inference: when a source file of the own module `all[i]`
/// textually references the distinct module `all[j]`, the emitted
/// compile task of `all[i]` declares `all[j]`'s class directory as an
/// extra input.  Since that directory is exactly the declared output of
/// `all[j]`'s compile task, the executor's derived edge then orders the
/// two tasks ([`lemma_dependency_orders_tasks`]).
pub proof fn lemma_dependency_inference(
    b: Bobje,
    texts: Seq<crate::scan::SourceText>,
    all: Seq<ModuleView>,
    i: int,
    j: int,
    fi: int,
    t: Seq<char>,
)
    requires
        0 <= i < all.len(),
        0 <= j < all.len(),
        all[j].name != all[i].name,
        has_own_file(all[i], b),
        0 <= fi < all[i].files.len(),
        text_lookup(texts, all[i].files[fi]) == Some(t),
        import_references(t, all[j].name),
    ensures
        emit_javac(b, texts, all, 0).contains(javac_task_spec(b, texts, all, all[i])),
        javac_task_spec(b, texts, all, all[i]).inputs.contains(
            module_out_dir_spec(b.classes_dir_spec(), all[j].name),
        ),
{
    lemma_emit_contains(b, texts, all, 0, i);
    lemma_module_deps_contains(all[i], all, texts, 0, fi, j, t);
    let deps = module_deps_spec(all[i], all, texts, 0);
    let k = choose|k: int| 0 <= k < deps.len() && deps[k] == all[j];
    lemma_add_dep_inputs_covers(all[i].files, deps, b.classes_dir_spec(), 0, k);
}

/// A task whose declared input is another task's declared output depends
/// on it, so a valid schedule never starts it first.
pub proof fn lemma_dependency_orders_tasks(
    tasks: Seq<TaskView>,
    order: Seq<usize>,
    xa: int,
    xd: int,
    dir: Seq<char>,
    pa: int,
    pd: int,
)
    requires
        0 <= xa < tasks.len(),
        0 <= xd < tasks.len(),
        xa != xd,
        tasks[xa].inputs.contains(dir),
        tasks[xd].outputs.contains(dir),
        crate::model::valid_schedule(tasks, order),
        0 <= pa < order.len(),
        0 <= pd < order.len(),
        order[pa] == xa,
        order[pd] == xd,
    ensures
        crate::model::task_depends(tasks, xa, xd),
        pd < pa,
{
    let ii = choose|ii: int| 0 <= ii < tasks[xa].inputs.len() && tasks[xa].inputs[ii] == dir;
    let oo = choose|oo: int| 0 <= oo < tasks[xd].outputs.len() && tasks[xd].outputs[oo] == dir;
    assert(crate::paths::covers(tasks[xd].outputs[oo], tasks[xa].inputs[ii]));
    assert(crate::model::task_depends(tasks, xa, xd));
}

/// The first source file, from index `i` on and in the package's own
/// enumeration order, whose text holds the entry-point signature.  A
/// first-match policy: later candidates are never considered.
pub open spec fn first_main_idx(
    files: Seq<Seq<char>>,
    texts: Seq<crate::scan::SourceText>,
    i: int,
) -> Option<int>
    decreases files.len() - i when i >= 0
{
    if i < 0 || i >= files.len() {
        None
    } else if match text_lookup(texts, files[i]) {
        Some(t) => has_main_signature(t),
        None => false,
    } {
        Some(i)
    } else {
        first_main_idx(files, texts, i + 1)
    }
}

/// Scan the package's own source files, in order, for the first one
/// whose text holds the entry-point signature, and name its class.
/// Fails with [`ConfigError::MainClassNotFound`] exactly when no text
/// matches, and with [`ConfigError::SourceOutsideRoot`] when the first
/// match lies under no source root.
pub fn find_main_class(bobje: &Bobje, texts: &SourceTexts) -> (r: Result<String, ConfigError>)
    ensures
        match r {
            Ok(s) => match first_main_idx(bobje.source_files.deep_view(), texts.files@, 0) {
                Some(k) => class_name_of(bobje.source_files.deep_view()[k]) == Some(s@),
                None => false,
            },
            Err(ConfigError::MainClassNotFound) => first_main_idx(
                bobje.source_files.deep_view(),
                texts.files@,
                0,
            ) is None,
            Err(ConfigError::SourceOutsideRoot(p)) => match first_main_idx(
                bobje.source_files.deep_view(),
                texts.files@,
                0,
            ) {
                Some(k) => bobje.source_files.deep_view()[k] == p@ && class_name_of(p@) is None,
                None => false,
            },
            Err(_) => false,
        },
{
    let ghost files = bobje.source_files.deep_view();
    let ghost tf = texts.files@;
    let mut i: usize = 0;
    while i < bobje.source_files.len()
        invariant
            files == bobje.source_files.deep_view(),
            tf == texts.files@,
            i <= files.len(),
            first_main_idx(files, tf, 0) == first_main_idx(files, tf, i as int),
        decreases files.len() - i,
    {
        let f = &bobje.source_files[i];
        let matched = match texts.lookup(f.as_str()) {
            Some(t) => main_signature_match(t.as_str()),
            None => false,
        };
        if matched {
            proof {
                assert(first_main_idx(files, tf, i as int) == Some(i as int));
            }
            return match get_class_name(f.as_str()) {
                Some(class) => Ok(class),
                None => Err(ConfigError::SourceOutsideRoot(f.clone())),
            };
        }
        i += 1;
    }
    Err(ConfigError::MainClassNotFound)
}

/// The archive path of the package.
pub open spec fn jar_file_spec(b: Bobje) -> Seq<char> {
    b.out_dir_spec() + "/"@ + b.name@ + "-"@ + b.version@ + ".jar"@
}

/// The packaging task: bundle every module's class directory, with the
/// resolved entry point, into the archive.
pub open spec fn jar_task_spec(b: Bobje, all: Seq<ModuleView>, main_class: Seq<char>) -> TaskView {
    TaskView {
        command: "jar cfe "@ + jar_file_spec(b) + " "@ + main_class + " -C "@
            + b.classes_dir_spec() + " ."@,
        inputs: Seq::new(all.len(), |k: int| module_out_dir_spec(b.classes_dir_spec(), all[k].name)),
        outputs: seq![jar_file_spec(b)],
    }
}

/// The entry point the archive gets: the explicitly declared one, or the
/// first-match scan of the package's own files.
pub open spec fn jar_main_spec(b: Bobje, texts: Seq<crate::scan::SourceText>) -> Option<
    Seq<char>,
> {
    match b.jar {
        Some(j) => match j.main_class {
            Some(c) => Some(c@),
            None => match first_main_idx(b.source_files.deep_view(), texts, 0) {
                Some(k) => class_name_of(b.source_files.deep_view()[k]),
                None => None,
            },
        },
        None => match first_main_idx(b.source_files.deep_view(), texts, 0) {
            Some(k) => class_name_of(b.source_files.deep_view()[k]),
            None => None,
        },
    }
}

/// Emit the packaging task: one task whose inputs are every module's
/// class directory and whose output is the archive.  Fails when module
/// discovery fails, when no entry point is declared or found, or when
/// the first matching file lies under no source root — each before the
/// task is appended.
pub fn generate_jar_tasks(
    bobje: &Bobje,
    texts: &SourceTexts,
    executor: &mut Executor,
) -> (r: Result<(), ConfigError>)
    ensures
        match r {
            Ok(()) => match (find_modules_spec(*bobje), jar_main_spec(*bobje, texts.files@)) {
                (Some(all), Some(main_class)) => final(executor).tasks_spec() == old(
                    executor,
                ).tasks_spec().push(jar_task_spec(*bobje, all, main_class)),
                _ => false,
            },
            Err(ConfigError::MainClassNotFound) => jar_main_spec(*bobje, texts.files@) is None
                && *final(executor) == *old(executor),
            Err(ConfigError::SourceOutsideRoot(p)) => class_name_of(p@) is None
                && *final(executor) == *old(executor) && ((find_modules_spec(*bobje) is None
                && ends_with(
                p@,
                ".java"@,
            ) && tree_has_file(*bobje, p@)) || (jar_main_spec(*bobje, texts.files@) is None
                && match first_main_idx(bobje.source_files.deep_view(), texts.files@, 0) {
                Some(k) => bobje.source_files.deep_view()[k] == p@,
                None => false,
            })),
            Err(_) => false,
        },
{
    let ghost tf = texts.files@;
    let main_class = match &bobje.jar {
        Some(j) => match &j.main_class {
            Some(c) => c.clone(),
            None => match find_main_class(bobje, texts) {
                Ok(c) => c,
                Err(e) => {
                    return Err(e);
                },
            },
        },
        None => match find_main_class(bobje, texts) {
            Ok(c) => c,
            Err(e) => {
                return Err(e);
            },
        },
    };
    let modules = match find_modules(bobje) {
        Ok(ms) => ms,
        Err(e) => {
            return Err(e);
        },
    };
    let ghost all = modules.deep_view();
    let mut jar_file = bobje.out_dir();
    jar_file.append("/");
    jar_file.append(bobje.name.as_str());
    jar_file.append("-");
    jar_file.append(bobje.version.as_str());
    jar_file.append(".jar");
    proof {
        assert(jar_file@ =~= jar_file_spec(*bobje));
    }
    let mut inputs: Vec<String> = Vec::new();
    let mut k: usize = 0;
    while k < modules.len()
        invariant
            all == modules.deep_view(),
            k <= all.len(),
            inputs.deep_view() =~= Seq::new(
                k as nat,
                |j: int| module_out_dir_spec(bobje.classes_dir_spec(), all[j].name),
            ),
        decreases all.len() - k,
    {
        let mut dir = bobje.classes_dir();
        dir.append("/");
        let seps = replace_dots_with_seps(modules[k].name.as_str());
        dir.append(seps.as_str());
        proof {
            assert(dir@ =~= module_out_dir_spec(bobje.classes_dir_spec(), all[k as int].name));
        }
        crate::paths::push_string(&mut inputs, dir);
        proof {
            assert(inputs.deep_view() =~= Seq::new(
                (k + 1) as nat,
                |j: int| module_out_dir_spec(bobje.classes_dir_spec(), all[j].name),
            ));
        }
        k += 1;
    }
    let mut command = String::from_str("jar cfe ");
    command.append(jar_file.as_str());
    command.append(" ");
    command.append(main_class.as_str());
    command.append(" -C ");
    let classes_dir = bobje.classes_dir();
    command.append(classes_dir.as_str());
    command.append(" .");
    let ghost jf = jar_file@;
    let mut outputs: Vec<String> = Vec::new();
    crate::paths::push_string(&mut outputs, jar_file);
    let ghost before = executor.tasks_spec();
    let ghost mc = main_class@;
    executor.add_task_cmd(command, inputs, outputs);
    proof {
        assert(executor.tasks_spec().last() =~~= jar_task_spec(*bobje, all, mc));
        assert(executor.tasks_spec() =~= before.push(jar_task_spec(*bobje, all, mc)));
    }
    Ok(())
}

/// The command that launches the compiled classes directly, with the
/// entry point found by the first-match scan.
pub fn java_run_command(bobje: &Bobje, texts: &SourceTexts) -> (r: Result<String, ConfigError>)
    ensures
        match r {
            Ok(s) => match first_main_idx(bobje.source_files.deep_view(), texts.files@, 0) {
                Some(k) => match class_name_of(bobje.source_files.deep_view()[k]) {
                    Some(c) => s@ == "java -cp "@ + bobje.classes_dir_spec() + " "@ + c,
                    None => false,
                },
                None => false,
            },
            Err(ConfigError::MainClassNotFound) => first_main_idx(
                bobje.source_files.deep_view(),
                texts.files@,
                0,
            ) is None,
            Err(ConfigError::SourceOutsideRoot(p)) => match first_main_idx(
                bobje.source_files.deep_view(),
                texts.files@,
                0,
            ) {
                Some(k) => bobje.source_files.deep_view()[k] == p@ && class_name_of(p@) is None,
                None => false,
            },
            Err(_) => false,
        },
{
    let main_class = match find_main_class(bobje, texts) {
        Ok(c) => c,
        Err(e) => {
            return Err(e);
        },
    };
    let mut command = String::from_str("java -cp ");
    let classes_dir = bobje.classes_dir();
    command.append(classes_dir.as_str());
    command.append(" ");
    command.append(main_class.as_str());
    proof {
        assert(command@ =~= "java -cp "@ + bobje.classes_dir_spec() + " "@ + main_class@);
    }
    Ok(command)
}

/// The command that launches the packaged archive.
pub fn jar_run_command(bobje: &Bobje) -> (r: String)
    ensures
        r@ == "java -jar "@ + jar_file_spec(*bobje),
{
    let mut command = String::from_str("java -jar ");
    let jar = bobje.out_dir();
    command.append(jar.as_str());
    command.append("/");
    command.append(bobje.name.as_str());
    command.append("-");
    command.append(bobje.version.as_str());
    command.append(".jar");
    proof {
        assert(command@ =~= "java -jar "@ + jar_file_spec(*bobje));
    }
    command
}

} // verus!
