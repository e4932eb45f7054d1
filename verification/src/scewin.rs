//! Finding the SCEWIN tool and running it with elevated rights. Paths are sequences of names, and
//! directories are read ahead of the search; what has to be asked of the system in between is
//! asked by the caller, one question at a time.

use vstd::prelude::*;
use vstd::string::*;

use crate::text;

verus! {

/// Whether SCEWIN is part of the program.
pub const BUNDLED: bool = false;

// ---------------------------------------------------------------------------
// Places
// ---------------------------------------------------------------------------

/// `dir` with one more name.
fn join_path(dir: &[String], name: &str) -> (r: Vec<String>)
    ensures
        text::texts(r@) == text::texts(dir@).push(name@),
{
    let mut r: Vec<String> = text::clone_strings(dir);
    let ghost before = r@;
    r.push(name.to_owned());
    assert(text::texts(r@) =~= text::texts(before).push(name@));
    r
}

/// The dump in SCEWIN's directory.
pub fn nvram_path_in_work(work: &[String]) -> (r: Vec<String>)
    ensures
        text::texts(r@) == text::texts(work@).push("nvram.txt"@),
{
    join_path(work, "nvram.txt")
}

/// Whether SCEWIN is part of the program.
pub fn has_embedded_scewin() -> (r: bool)
    ensures
        r == BUNDLED,
{
    BUNDLED
}

/// Where an embedded SCEWIN is unpacked, below the directory for local application data.
pub fn runtime_embed_root(local_app_data: Option<&[String]>) -> (r: Option<Vec<String>>)
    ensures
        match (local_app_data, r) {
            (Some(base), Some(p)) => text::texts(p@) == text::texts(base@).push(
                "nvram_editor"@,
            ).push("scewin_embedded"@),
            (None, None) => true,
            _ => false,
        },
{
    match local_app_data {
        Some(base) => Some(join_path(&join_path(base, "nvram_editor"), "scewin_embedded")),
        None => None,
    }
}

/// The paths that a vector holds.
pub open spec fn path_texts(v: Seq<Vec<String>>) -> Seq<Seq<Seq<char>>> {
    Seq::new(v.len(), |i: int| text::texts(v[i]@))
}

/// A directory and the directory `SCEWIN` in it, if the directory is known.
pub open spec fn dir_and_scewin(dir: Option<&[String]>) -> Seq<Seq<Seq<char>>> {
    match dir {
        Some(d) => seq![text::texts(d@), text::texts(d@).push("SCEWIN"@)],
        None => seq![],
    }
}

/// The directory `SCEWIN` in a source tree, if there is one.
pub open spec fn scewin_in(dir: Option<&[String]>) -> Seq<Seq<Seq<char>>> {
    match dir {
        Some(d) => seq![text::texts(d@).push("SCEWIN"@)],
        None => seq![],
    }
}

/// Where to look for SCEWIN, in this order: next to the program, in the working directory, in the
/// source tree.
pub fn scewin_search_roots(
    exe_dir: Option<&[String]>,
    current_dir: Option<&[String]>,
    source_dir: Option<&[String]>,
) -> (r: Vec<Vec<String>>)
    ensures
        path_texts(r@) == dir_and_scewin(exe_dir) + dir_and_scewin(current_dir) + scewin_in(
            source_dir,
        ),
{
    let mut r: Vec<Vec<String>> = Vec::new();
    if let Some(d) = exe_dir {
        r.push(text::clone_strings(d));
        r.push(join_path(d, "SCEWIN"));
    }
    assert(path_texts(r@) =~= dir_and_scewin(exe_dir));
    if let Some(d) = current_dir {
        r.push(text::clone_strings(d));
        r.push(join_path(d, "SCEWIN"));
    }
    assert(path_texts(r@) =~= dir_and_scewin(exe_dir) + dir_and_scewin(current_dir));
    if let Some(d) = source_dir {
        r.push(join_path(d, "SCEWIN"));
    }
    assert(path_texts(r@) =~= dir_and_scewin(exe_dir) + dir_and_scewin(current_dir) + scewin_in(
        source_dir,
    ));
    r
}

// ---------------------------------------------------------------------------
// Search
// ---------------------------------------------------------------------------

/// A directory that was read.
pub struct DirNode {
    pub name: String,
    /// `SCEWIN_64.exe` is a file in it.
    pub has_exe: bool,
    /// The directories in it, if it could be read.
    pub children: Option<Vec<DirNode>>,
}

/// `a` comes before `b`, character by character.
pub open spec fn before(a: Seq<char>, b: Seq<char>) -> bool
    decreases a.len(),
{
    if b.len() == 0 {
        false
    } else if a.len() == 0 || a[0] < b[0] {
        true
    } else {
        a[0] == b[0] && before(a.drop_first(), b.drop_first())
    }
}

/// The way, child by child, from a directory to one that holds SCEWIN, at most `depth` levels
/// down. At each level the directories are tried in the order of their names.
pub open spec fn way_to_exe(node: DirNode, depth: nat) -> Option<Seq<int>>
    decreases depth, 0nat,
{
    if node.has_exe {
        Some(seq![])
    } else if depth == 0 {
        None
    } else {
        match node.children {
            Some(children) => {
                let below = (depth - 1) as nat;
                match first_with_exe(children@, below, children@.len()) {
                    Some(i) => Some(seq![i] + way_to_exe(children@[i], below)->0),
                    None => None,
                }
            },
            None => None,
        }
    }
}

/// Of the first `n` directories, the one with the least name from which SCEWIN is found.
pub open spec fn first_with_exe(children: Seq<DirNode>, depth: nat, n: nat) -> Option<int>
    decreases depth, n + 1,
{
    if n == 0 || n > children.len() {
        None
    } else {
        let least = first_with_exe(children, depth, (n - 1) as nat);
        if way_to_exe(children[n - 1], depth) is None {
            least
        } else {
            match least {
                Some(i) if !before(children[n - 1].name@, children[i].name@) => Some(i),
                _ => Some(n - 1),
            }
        }
    }
}

/// Positions as numbers.
pub open spec fn way_view(v: Option<Vec<usize>>) -> Option<Seq<int>> {
    match v {
        Some(w) => Some(w@.map_values(|i: usize| i as int)),
        None => None,
    }
}

/// Whether `a` comes before `b`.
fn comes_before(a: &str, b: &str) -> (r: bool)
    ensures
        r == before(a@, b@),
{
    let x: Vec<char> = text::to_chars(a);
    let y: Vec<char> = text::to_chars(b);
    let mut i: usize = 0;
    assert(x@.skip(0) =~= a@);
    assert(y@.skip(0) =~= b@);
    while i < x.len() && i < y.len()
        invariant
            i <= x.len(),
            i <= y.len(),
            before(x@.skip(i as int), y@.skip(i as int)) == before(a@, b@),
        decreases x.len() - i,
    {
        assert(x@.skip(i as int).drop_first() =~= x@.skip(i + 1));
        assert(y@.skip(i as int).drop_first() =~= y@.skip(i + 1));
        if x[i] < y[i] {
            return true;
        }
        if x[i] != y[i] {
            return false;
        }
        i += 1;
    }
    i < y.len()
}

/// The way from a directory to one that holds SCEWIN, at most `max_depth` levels down.
pub fn find_scewin_dir_recursive(root: &DirNode, max_depth: usize) -> (r: Option<Vec<usize>>)
    ensures
        way_view(r) == way_to_exe(*root, max_depth as nat),
    decreases max_depth,
{
    if root.has_exe {
        let way: Vec<usize> = Vec::new();
        assert(way@.map_values(|i: usize| i as int) =~= seq![]);
        return Some(way);
    }
    if max_depth == 0 {
        return None;
    }
    let children: &Vec<DirNode> = match &root.children {
        Some(c) => c,
        None => return None,
    };
    let ghost below = (max_depth - 1) as nat;
    let mut best: Option<usize> = None;
    let mut best_way: Vec<usize> = Vec::new();
    let mut n: usize = 0;
    while n < children.len()
        invariant
            n <= children.len(),
            max_depth > 0,
            below == max_depth - 1,
            match best {
                Some(i) => {
                    &&& first_with_exe(children@, below, n as nat) == Some(i as int)
                    &&& i < n
                    &&& way_to_exe(children@[i as int], below) == Some(
                        best_way@.map_values(|i: usize| i as int),
                    )
                },
                None => first_with_exe(children@, below, n as nat) is None,
            },
        decreases children.len() - n,
    {
        if let Some(way) = find_scewin_dir_recursive(&children[n], max_depth - 1) {
            let better: bool = match best {
                Some(i) => comes_before(children[n].name.as_str(), children[i].name.as_str()),
                None => true,
            };
            if better {
                best = Some(n);
                best_way = way;
            }
        }
        n += 1;
    }
    match best {
        Some(i) => {
            let mut way: Vec<usize> = Vec::new();
            way.push(i);
            way.append(&mut best_way);
            assert(way@.map_values(|i: usize| i as int) =~= way_to_exe(
                *root,
                max_depth as nat,
            )->0);
            Some(way)
        },
        None => None,
    }
}

/// A place to look for SCEWIN: its path, and what was read there if it is a directory.
pub struct BundleRoot {
    pub path: Vec<String>,
    pub tree: Option<DirNode>,
}

/// The names along a way.
pub open spec fn names_along(node: DirNode, way: Seq<int>) -> Seq<Seq<char>>
    decreases way.len(),
{
    if way.len() == 0 {
        seq![]
    } else {
        match node.children {
            Some(children) => {
                let child = children@[way[0]];
                seq![child.name@] + names_along(child, way.drop_first())
            },
            None => seq![],
        }
    }
}

/// How many levels down SCEWIN is searched for.
pub const SEARCH_DEPTH: usize = 2;

/// The directory at or below a place that holds SCEWIN: the place itself, or one at most
/// `SEARCH_DEPTH` levels down.
pub open spec fn work_dir(root: BundleRoot) -> Option<Seq<Seq<char>>> {
    match root.tree {
        Some(node) => match way_to_exe(node, SEARCH_DEPTH as nat) {
            Some(way) => Some(text::texts(root.path@) + names_along(node, way)),
            None => None,
        },
        None => None,
    }
}

/// The directory at or below a place that holds SCEWIN.
pub fn work_dir_in_bundle(root: &BundleRoot) -> (r: Option<Vec<String>>)
    ensures
        match r {
            Some(p) => work_dir(*root) == Some(text::texts(p@)),
            None => work_dir(*root) is None,
        },
{
    let tree: &DirNode = match &root.tree {
        Some(t) => t,
        None => return None,
    };
    let way: Vec<usize> = match find_scewin_dir_recursive(tree, SEARCH_DEPTH) {
        Some(w) => w,
        None => return None,
    };
    let ghost steps = way@.map_values(|i: usize| i as int);
    proof {
        law_way_leads_to_exe(*tree, SEARCH_DEPTH as nat);
    }
    let mut path: Vec<String> = text::clone_strings(&root.path);
    let mut node: &DirNode = tree;
    let mut i: usize = 0;
    assert(steps.skip(0) =~= steps);
    assert(text::texts(path@) + names_along(*tree, steps) =~= text::texts(root.path@)
        + names_along(*tree, steps));
    while i < way.len()
        invariant
            i <= way.len(),
            steps == way@.map_values(|i: usize| i as int),
            leads_to_exe(*node, steps.skip(i as int)),
            text::texts(path@) + names_along(*node, steps.skip(i as int)) == text::texts(
                root.path@,
            ) + names_along(*tree, steps),
        decreases way.len() - i,
    {
        let ghost rest = steps.skip(i as int);
        assert(rest[0] == way@[i as int]);
        assert(rest.drop_first() =~= steps.skip(i + 1));
        if let Some(children) = &node.children {
            let child: &DirNode = &children[way[i]];
            let ghost done = path@;
            path.push(child.name.clone());
            proof {
                assert(text::texts(path@) =~= text::texts(done).push(child.name@));
                assert(text::texts(path@) + names_along(*child, rest.drop_first()) =~= text::texts(
                    done,
                ) + (seq![child.name@] + names_along(*child, rest.drop_first())));
            }
            node = child;
        }
        i += 1;
    }
    assert(text::texts(path@) + names_along(*node, steps.skip(way@.len() as int)) =~= text::texts(
        path@,
    ));
    Some(path)
}

/// The work directory of the first of these places that has one.
pub open spec fn first_work_dir(roots: Seq<BundleRoot>) -> Option<Seq<Seq<char>>>
    decreases roots.len(),
{
    if roots.len() == 0 {
        None
    } else if work_dir(roots[0]) is Some {
        work_dir(roots[0])
    } else {
        first_work_dir(roots.drop_first())
    }
}

/// The directory where SCEWIN stands: in the first place that has it, or else where the embedded
/// copy was unpacked.
pub fn resolve_scewin_work_dir(roots: &[BundleRoot], embedded: Option<&BundleRoot>) -> (r: Option<
    Vec<String>,
>)
    ensures
        (match r {
            Some(p) => Some(text::texts(p@)),
            None => None,
        }) == (match (first_work_dir(roots@), embedded) {
            (Some(p), _) => Some(p),
            (None, Some(e)) => work_dir(*e),
            (None, None) => None,
        }),
{
    let mut i: usize = 0;
    assert(roots@.skip(0) =~= roots@);
    while i < roots.len()
        invariant
            i <= roots.len(),
            first_work_dir(roots@) == first_work_dir(roots@.skip(i as int)),
        decreases roots.len() - i,
    {
        assert(roots@.skip(i as int).drop_first() =~= roots@.skip(i + 1));
        let found: Option<Vec<String>> = work_dir_in_bundle(&roots[i]);
        if found.is_some() {
            return found;
        }
        i += 1;
    }
    match embedded {
        Some(e) => work_dir_in_bundle(e),
        None => None,
    }
}

/// Whether an unpacked copy can stay as it is: it is of the wanted version, and SCEWIN is found in
/// it.
pub fn embedded_bundle_is_current(marker: Option<&str>, wanted: &str, found: bool) -> (r: bool)
    ensures
        r == (found && match marker {
            Some(m) => text::trim(m@) == wanted@,
            None => false,
        }),
{
    match marker {
        Some(m) => found && text::text_eq(text::trim_text(m).as_str(), wanted),
        None => false,
    }
}

/// The way leads from child to child to a directory that holds SCEWIN.
pub open spec fn leads_to_exe(node: DirNode, way: Seq<int>) -> bool
    decreases way.len(),
{
    if way.len() == 0 {
        node.has_exe
    } else {
        match node.children {
            Some(children) => 0 <= way[0] < children@.len() && leads_to_exe(
                children@[way[0]],
                way.drop_first(),
            ),
            None => false,
        }
    }
}

/// What is found holds SCEWIN, and is no deeper than the search goes.
pub proof fn law_way_leads_to_exe(node: DirNode, depth: nat)
    ensures
        way_to_exe(node, depth) matches Some(way) ==> leads_to_exe(node, way) && way.len() <= depth,
    decreases depth,
{
    if let Some(children) = node.children {
        if !node.has_exe && depth > 0 {
            let below = (depth - 1) as nat;
            lemma_first_with_exe(children@, below, children@.len());
            if let Some(i) = first_with_exe(children@, below, children@.len()) {
                law_way_leads_to_exe(children@[i], below);
                let rest = way_to_exe(children@[i], below)->0;
                assert((seq![i] + rest).drop_first() =~= rest);
            }
        }
    }
}

proof fn lemma_first_with_exe(children: Seq<DirNode>, depth: nat, n: nat)
    requires
        n <= children.len(),
    ensures
        match first_with_exe(children, depth, n) {
            Some(i) => 0 <= i < n && way_to_exe(children[i], depth) is Some,
            None => forall|i: int|
                0 <= i < n ==> way_to_exe(#[trigger] children[i], depth) is None,
        },
    decreases n,
{
    if n > 0 {
        lemma_first_with_exe(children, depth, (n - 1) as nat);
    }
}

/// The order of names is transitive.
proof fn lemma_before_transitive(a: Seq<char>, b: Seq<char>, c: Seq<char>)
    requires
        before(a, b),
        before(b, c),
    ensures
        before(a, c),
    decreases a.len(),
{
    if a.len() > 0 && a[0] == b[0] && b[0] == c[0] {
        lemma_before_transitive(a.drop_first(), b.drop_first(), c.drop_first());
    }
}

/// Of several directories from which SCEWIN is found, the search takes the one whose name comes
/// first.
pub proof fn law_first_name_wins(children: Seq<DirNode>, depth: nat, n: nat)
    requires
        n <= children.len(),
    ensures
        first_with_exe(children, depth, n) matches Some(i) ==> forall|j: int|
            0 <= j < n && way_to_exe(#[trigger] children[j], depth) is Some ==> !before(
                children[j].name@,
                children[i].name@,
            ),
    decreases n,
{
    if n > 0 {
        let m = (n - 1) as nat;
        law_first_name_wins(children, depth, m);
        lemma_first_with_exe(children, depth, m);
        if let Some(i) = first_with_exe(children, depth, n) {
            assert forall|j: int|
                0 <= j < n && way_to_exe(#[trigger] children[j], depth) is Some implies !before(
                children[j].name@,
                children[i].name@,
            ) by {
                if i == n - 1 {
                    if let Some(k) = first_with_exe(children, depth, m) {
                        if before(children[j].name@, children[i].name@) {
                            if j < m {
                                lemma_before_transitive(
                                    children[j].name@,
                                    children[i].name@,
                                    children[k].name@,
                                );
                            } else {
                                lemma_before_irreflexive(children[i].name@);
                            }
                        }
                    } else {
                        lemma_before_irreflexive(children[i].name@);
                    }
                }
            }
        }
    }
}

/// No name comes before itself.
proof fn lemma_before_irreflexive(a: Seq<char>)
    ensures
        !before(a, a),
    decreases a.len(),
{
    if a.len() > 0 {
        lemma_before_irreflexive(a.drop_first());
    }
}

/// Nothing is missed: where the search finds nothing, no way within its depth leads to SCEWIN.
pub proof fn law_search_misses_nothing(node: DirNode, depth: nat, way: Seq<int>)
    requires
        leads_to_exe(node, way),
        way.len() <= depth,
    ensures
        way_to_exe(node, depth) is Some,
    decreases depth,
{
    if !node.has_exe && way.len() > 0 {
        if let Some(children) = node.children {
            let below = (depth - 1) as nat;
            law_search_misses_nothing(children@[way[0]], below, way.drop_first());
            lemma_first_with_exe(children@, below, children@.len());
        }
    }
}

// ---------------------------------------------------------------------------
// Running with elevated rights
// ---------------------------------------------------------------------------

/// What to start, as the shell is asked for it.
pub struct LaunchRequest {
    pub verb: String,
    /// The components of the path of the program.
    pub file: Vec<String>,
    /// The arguments; left out if there are none.
    pub parameters: Option<String>,
    /// The components of the path of the directory to start it in.
    pub directory: Vec<String>,
}

/// What the system answered.
pub enum RunEvent {
    /// Whether `SCEWIN_64.exe` is a file in the work directory.
    Looked { exe_present: bool },
    /// Whether the shell started the program, and whether it gave a handle for it.
    Launched { started: bool, has_handle: bool },
    /// What waiting for the process returned.
    Waited { result: u32 },
    /// Whether the exit code could be read, and the code.
    CodeRead { read: bool, code: u32 },
}

/// How a run ended.
pub enum RunEnd {
    /// The program is not there.
    NotFound(String),
    /// The program was started but cannot be followed.
    NoHandle(String),
    /// The system failed; it knows how.
    SystemError,
    /// The program ended with this code.
    Exited(u32),
}

/// What to do next.
pub enum RunAction {
    Launch(LaunchRequest),
    Wait,
    ReadCode,
    /// The run is over; the handle of the process is closed first if there is one to close.
    Stop { close_handle: bool, end: RunEnd },
}

/// A request as texts.
#[verifier::ext_equal]
pub struct RequestView {
    pub verb: Seq<char>,
    pub file: Seq<Seq<char>>,
    pub parameters: Option<Seq<char>>,
    pub directory: Seq<Seq<char>>,
}

/// The end of a run as texts and numbers.
#[verifier::ext_equal]
pub enum EndView {
    NotFound(Seq<char>),
    NoHandle(Seq<char>),
    SystemError,
    Exited(u32),
}

/// An action as texts and numbers.
#[verifier::ext_equal]
pub enum ActionView {
    Launch(RequestView),
    Wait,
    ReadCode,
    Stop(bool, EndView),
}

impl View for RunAction {
    type V = ActionView;

    open spec fn view(&self) -> ActionView {
        match *self {
            RunAction::Launch(q) => ActionView::Launch(
                RequestView {
                    verb: q.verb@,
                    file: text::texts(q.file@),
                    parameters: match q.parameters {
                        Some(p) => Some(p@),
                        None => None,
                    },
                    directory: text::texts(q.directory@),
                },
            ),
            RunAction::Wait => ActionView::Wait,
            RunAction::ReadCode => ActionView::ReadCode,
            RunAction::Stop { close_handle, end } => ActionView::Stop(
                close_handle,
                match end {
                    RunEnd::NotFound(m) => EndView::NotFound(m@),
                    RunEnd::NoHandle(m) => EndView::NoHandle(m@),
                    RunEnd::SystemError => EndView::SystemError,
                    RunEnd::Exited(code) => EndView::Exited(code),
                },
            ),
        }
    }
}

/// What waiting returns when it failed.
pub const WAIT_FAILED: u32 = 0xffff_ffff;

/// What comes after an answer of the system, in a run of the SCEWIN in `work` with these arguments.
/// `shown` is the path of `work` as it is shown.
pub open spec fn next_action(
    work: Seq<Seq<char>>,
    shown: Seq<char>,
    args: Seq<Seq<char>>,
    event: RunEvent,
) -> ActionView {
    match event {
        RunEvent::Looked { exe_present } => if exe_present {
            let parameters = text::join(args, " "@);
            ActionView::Launch(
                RequestView {
                    verb: "runas"@,
                    file: work.push("SCEWIN_64.exe"@),
                    parameters: if parameters.len() == 0 {
                        None
                    } else {
                        Some(parameters)
                    },
                    directory: work,
                },
            )
        } else {
            ActionView::Stop(
                false,
                EndView::NotFound(
                    "SCEWIN_64.exe not found in "@ + shown
                        + ". Copy SCEWIN (exe + .sys), e.g. from SCEHUB."@,
                ),
            )
        },
        RunEvent::Launched { started, has_handle } => if !started {
            ActionView::Stop(false, EndView::SystemError)
        } else if !has_handle {
            ActionView::Stop(
                false,
                EndView::NoHandle("Elevated process started without process handle."@),
            )
        } else {
            ActionView::Wait
        },
        RunEvent::Waited { result } => if result == WAIT_FAILED {
            ActionView::Stop(true, EndView::SystemError)
        } else {
            ActionView::ReadCode
        },
        RunEvent::CodeRead { read, code } => if read {
            ActionView::Stop(true, EndView::Exited(code))
        } else {
            ActionView::Stop(true, EndView::SystemError)
        },
    }
}

/// What comes after an answer of the system, in an elevated run of the SCEWIN in `work`, whose path
/// is shown as `shown`.
pub fn run_scewin_elevated(
    work: &[String],
    shown: &str,
    args: &[String],
    event: RunEvent,
) -> (r: RunAction)
    ensures
        r@ == next_action(text::texts(work@), shown@, text::texts(args@), event),
{
    match event {
        RunEvent::Looked { exe_present } => {
            if !exe_present {
                return RunAction::Stop {
                    close_handle: false,
                    end: RunEnd::NotFound(
                        "SCEWIN_64.exe not found in ".to_owned().concat(shown).concat(
                            ". Copy SCEWIN (exe + .sys), e.g. from SCEHUB.",
                        ),
                    ),
                };
            }
            let joined: String = text::join_strings(args, " ");
            let parameters: Option<String> = if joined.as_str().is_empty() {
                None
            } else {
                Some(joined)
            };
            RunAction::Launch(
                LaunchRequest {
                    verb: "runas".to_owned(),
                    file: join_path(work, "SCEWIN_64.exe"),
                    parameters,
                    directory: text::clone_strings(work),
                },
            )
        },
        RunEvent::Launched { started, has_handle } => {
            if !started {
                RunAction::Stop { close_handle: false, end: RunEnd::SystemError }
            } else if !has_handle {
                RunAction::Stop {
                    close_handle: false,
                    end: RunEnd::NoHandle(
                        "Elevated process started without process handle.".to_owned(),
                    ),
                }
            } else {
                RunAction::Wait
            }
        },
        RunEvent::Waited { result } => {
            if result == WAIT_FAILED {
                RunAction::Stop { close_handle: true, end: RunEnd::SystemError }
            } else {
                RunAction::ReadCode
            }
        },
        RunEvent::CodeRead { read, code } => {
            if read {
                RunAction::Stop { close_handle: true, end: RunEnd::Exited(code) }
            } else {
                RunAction::Stop { close_handle: true, end: RunEnd::SystemError }
            }
        },
    }
}

/// The arguments that make SCEWIN write the dump.
pub open spec fn export_arguments() -> Seq<Seq<char>> {
    seq!["/o"@, "/s"@, "nvram.txt"@]
}

/// The arguments that make SCEWIN read the dump.
pub open spec fn import_arguments() -> Seq<Seq<char>> {
    seq!["/i"@, "/s"@, "nvram.txt"@]
}

/// Three arguments.
fn three(a: &str, b: &str, c: &str) -> (r: Vec<String>)
    ensures
        text::texts(r@) == seq![a@, b@, c@],
{
    let mut r: Vec<String> = Vec::new();
    r.push(a.to_owned());
    r.push(b.to_owned());
    r.push(c.to_owned());
    assert(text::texts(r@) =~= seq![a@, b@, c@]);
    r
}

/// The next step of an export: SCEWIN writes the firmware's settings to the dump.
pub fn export_nvram(work: &[String], shown: &str, event: RunEvent) -> (r: RunAction)
    ensures
        r@ == next_action(text::texts(work@), shown@, export_arguments(), event),
{
    run_scewin_elevated(work, shown, &three("/o", "/s", "nvram.txt"), event)
}

/// The next step of an import: SCEWIN reads the dump into the firmware.
pub fn import_nvram(work: &[String], shown: &str, event: RunEvent) -> (r: RunAction)
    ensures
        r@ == next_action(text::texts(work@), shown@, import_arguments(), event),
{
    run_scewin_elevated(work, shown, &three("/i", "/s", "nvram.txt"), event)
}

/// Whoever stops a run closes the handle of the process, if the process was started with one.
pub proof fn law_handles_are_closed(
    work: Seq<Seq<char>>,
    shown: Seq<char>,
    args: Seq<Seq<char>>,
    event: RunEvent,
)
    ensures
        next_action(work, shown, args, event) matches ActionView::Stop(close_handle, _)
            ==> close_handle == (event is Waited || event is CodeRead),
{
}

/// The program is started only if it is there, followed only if it was started with a handle, and
/// asked for its code only if waiting for it did not fail.
pub proof fn law_steps_follow_success(
    work: Seq<Seq<char>>,
    shown: Seq<char>,
    args: Seq<Seq<char>>,
    event: RunEvent,
)
    ensures
        next_action(work, shown, args, event) is Launch <==> event == (RunEvent::Looked {
            exe_present: true,
        }),
        next_action(work, shown, args, event) is Wait <==> event == (RunEvent::Launched {
            started: true,
            has_handle: true,
        }),
        next_action(work, shown, args, event) is ReadCode <==> (event matches RunEvent::Waited {
            result,
        } && result != WAIT_FAILED),
{
}

// ---------------------------------------------------------------------------
// Wide strings
// ---------------------------------------------------------------------------

/// `c` in UTF-16.
pub open spec fn utf16_char(c: char) -> Seq<u16> {
    let n = c as u32;
    if n < 0x10000 {
        seq![n as u16]
    } else {
        seq![
            (0xd800 + (n - 0x10000) / 0x400) as u16,
            (0xdc00 + (n - 0x10000) % 0x400) as u16,
        ]
    }
}

/// `s` in UTF-16.
pub open spec fn utf16(s: Seq<char>) -> Seq<u16>
    decreases s.len(),
{
    if s.len() == 0 {
        seq![]
    } else {
        utf16(s.drop_last()) + utf16_char(s.last())
    }
}

/// `s` in UTF-16, with a zero at the end.
pub fn to_wide(s: &str) -> (r: Vec<u16>)
    ensures
        r@ == utf16(s@).push(0),
{
    let chars: Vec<char> = text::to_chars(s);
    let mut r: Vec<u16> = Vec::new();
    let mut i: usize = 0;
    while i < chars.len()
        invariant
            i <= chars.len(),
            chars@ == s@,
            r@ == utf16(s@.take(i as int)),
        decreases chars.len() - i,
    {
        let n: u32 = chars[i] as u32;
        proof {
            assert(s@.take(i + 1).drop_last() =~= s@.take(i as int));
        }
        if n < 0x10000 {
            r.push(n as u16);
        } else {
            r.push((0xd800 + (n - 0x10000) / 0x400) as u16);
            r.push((0xdc00 + (n - 0x10000) % 0x400) as u16);
        }
        proof {
            assert(r@ =~= utf16(s@.take(i as int)) + utf16_char(s@[i as int]));
        }
        i += 1;
    }
    assert(s@.take(s@.len() as int) =~= s@);
    r.push(0);
    r
}

// ---------------------------------------------------------------------------
// Laws of names, requests and units
// ---------------------------------------------------------------------------

/// Names stand in the order of a dictionary: the first character in which they differ decides, and a
/// name stands in front of the longer ones that start with it.
pub proof fn law_names_are_in_dictionary_order(common: Seq<char>, a: Seq<char>, b: Seq<char>)
    ensures
        a.len() > 0 && b.len() > 0 && a[0] != b[0] ==> (before(common + a, common + b) <==> a[0]
            < b[0]),
        b.len() > 0 ==> before(common, common + b),
        !before(common + a, common),
    decreases common.len(),
{
    if common.len() == 0 {
        assert(common + a =~= a);
        assert(common + b =~= b);
    } else {
        let rest = common.drop_first();
        law_names_are_in_dictionary_order(rest, a, b);
        assert((common + a).drop_first() =~= rest + a);
        assert((common + b).drop_first() =~= rest + b);
    }
}

/// The names along a way are those of the directories on it, one for each step.
pub proof fn law_names_follow_the_way(node: DirNode, i: int, way: Seq<int>)
    ensures
        names_along(node, seq![]).len() == 0,
        node.children matches Some(children) ==> names_along(node, seq![i] + way) == seq![
            children@[i].name@,
        ] + names_along(children@[i], way),
{
    assert((seq![i] + way).drop_first() =~= way);
}

/// A directory with the program in it is where SCEWIN works, and nothing below it is looked at; the
/// first of several places that have it wins.
pub proof fn law_nearest_program_wins(root: BundleRoot, rest: Seq<BundleRoot>)
    ensures
        root.tree matches Some(node) && node.has_exe ==> work_dir(root) == Some(
            text::texts(root.path@),
        ),
        root.tree is None ==> work_dir(root) is None,
        first_work_dir(seq![root] + rest) == (if work_dir(root) is Some {
            work_dir(root)
        } else {
            first_work_dir(rest)
        }),
        first_work_dir(seq![]) is None,
{
    assert((seq![root] + rest).drop_first() =~= rest);
    if let Some(node) = root.tree {
        if node.has_exe {
            assert(text::texts(root.path@) + names_along(node, seq![]) =~= text::texts(root.path@));
        }
    }
}

/// SCEWIN is started with elevated rights in its own directory, with its arguments side by side.
pub proof fn law_launch_request(
    work: Seq<Seq<char>>,
    shown: Seq<char>,
    first: Seq<char>,
    rest: Seq<Seq<char>>,
)
    requires
        first.len() > 0,
    ensures
        next_action(work, shown, seq![first] + rest, RunEvent::Looked { exe_present: true })
            matches ActionView::Launch(request) && {
            &&& request.verb == "runas"@
            &&& request.file == work.push("SCEWIN_64.exe"@)
            &&& request.directory == work
            &&& request.parameters == Some(
                if rest.len() == 0 {
                    first
                } else {
                    first + seq![' '] + text::join(rest, " "@)
                },
            )
        },
        next_action(work, shown, seq![], RunEvent::Looked { exe_present: true })
            matches ActionView::Launch(request) && request.parameters is None,
{
    reveal_strlit(" ");
    let args = seq![first] + rest;
    assert(" "@ =~= seq![' ']);
    text::law_joined_parts_join(seq![first], rest, " "@);
    if rest.len() == 0 {
        assert(args =~= seq![first]);
    }
}

/// Every character is one unit, or a pair of surrogates from which it is computed back.
pub proof fn law_units_give_the_characters_back(a: Seq<char>, c: char)
    ensures
        utf16(a.push(c)) == utf16(a) + utf16_char(c),
        utf16_char(c).len() == 1 || utf16_char(c).len() == 2,
        utf16_char(c).len() == 1 ==> utf16_char(c)[0] as int == c as int,
        utf16_char(c).len() == 2 ==> {
            let high = utf16_char(c)[0] as int;
            let low = utf16_char(c)[1] as int;
            &&& 0xd800 <= high < 0xdc00
            &&& 0xdc00 <= low < 0xe000
            &&& 0x10000 + (high - 0xd800) * 0x400 + (low - 0xdc00) == c as int
        },
{
    assert(a.push(c).drop_last() =~= a);
}

} // verus!
