//! The desktop window registry: which windows are open, which project each
//! shows, and the file watcher each owns.

use crate::strutil::{chars_eq_str, split_sep, str_eq};
use vstd::prelude::*;
use vstd::string::StringExecFns;

verus! {

/// A handle to a project file watcher. The registry owns one per window
/// and stops it when the window goes away or the watcher is replaced.
#[derive(Debug)]
pub struct FileWatcher {
    active: bool,
}

impl FileWatcher {
    /// Whether the watcher still runs.
    pub closed spec fn is_active(self) -> bool {
        self.active
    }

    /// Start a watcher.
    pub fn new() -> (r: Result<FileWatcher, String>)
        ensures
            r matches Ok(w) ==> w.is_active(),
    {
        Ok(FileWatcher { active: true })
    }

    /// Stop the watcher; stopping twice is harmless.
    pub fn stop(&mut self)
        ensures
            !final(self).is_active(),
    {
        self.active = false;
    }
}

/// One window's registered state.
#[derive(Debug)]
pub struct WindowState {
    pub project_id: Option<String>,
    pub root_path: Option<String>,
    pub file_watcher: Option<FileWatcher>,
}

/// The mathematical shape of a window's state: its project, its root, and
/// whether it holds a watcher and that watcher still runs.
pub struct WindowStateModel {
    pub project_id: Option<Seq<char>>,
    pub root_path: Option<Seq<char>>,
    pub watcher: Option<bool>,
}

impl DeepView for WindowState {
    type V = WindowStateModel;

    open spec fn deep_view(&self) -> WindowStateModel {
        WindowStateModel {
            project_id: crate::events::opt_view(self.project_id),
            root_path: crate::events::opt_view(self.root_path),
            watcher: match self.file_watcher {
                Some(w) => Some(w.is_active()),
                None => None,
            },
        }
    }
}

/// What the shell shows of one window.
#[derive(Debug)]
pub struct WindowInfo {
    pub label: String,
    pub project_id: Option<String>,
    pub root_path: Option<String>,
    pub title: String,
}

/// The last usable component of a list of path segments: empty and
/// current-directory segments are skipped from the end; an upward segment
/// yields nothing.
pub open spec fn file_name_of(parts: Seq<Seq<char>>) -> Option<Seq<char>>
    decreases parts.len(),
{
    if parts.len() == 0 {
        None
    } else {
        let l = parts.last();
        if l.len() == 0 || l == "."@ {
            file_name_of(parts.drop_last())
        } else if l == ".."@ {
            None
        } else {
            Some(l)
        }
    }
}

/// The file name of a slash-separated path, per [`file_name_of`].
pub open spec fn path_file_name(p: Seq<char>) -> Option<Seq<char>> {
    file_name_of(split_sep(p, '/'))
}

/// The title a window carries: its project directory's name before the
/// application name, or the application name alone.
pub open spec fn title_of(root: Option<Seq<char>>) -> Seq<char> {
    match root {
        Some(p) => match path_file_name(p) {
            Some(name) => name + " - TalkCody"@,
            None => "TalkCody"@,
        },
        None => "TalkCody"@,
    }
}

/// Build a window title from an optional project root path, per
/// [`title_of`].
pub fn build_window_title(root_path: Option<&String>) -> (r: String)
    ensures
        r@ == title_of(match root_path {
            Some(p) => Some(p@),
            None => None,
        }),
{
    let p = match root_path {
        Some(p) => p,
        None => {
            return "TalkCody".to_owned();
        },
    };
    let chars = crate::strutil::str_chars(p.as_str());
    let parts = crate::strutil::split_sep_chars(&chars, '/');
    let ghost pdv = parts.deep_view();
    let mut j = parts.len();
    proof {
        assert(pdv.take(j as int) =~~= pdv);
    }
    while j > 0
        invariant
            j <= parts@.len(),
            pdv == parts.deep_view(),
            pdv == split_sep(p@, '/'),
            root_path == Some(p),
            file_name_of(pdv) == file_name_of(pdv.take(j as int)),
        decreases j,
    {
        let seg = &parts[j - 1];
        let ghost cur = pdv.take(j as int);
        proof {
            assert(pdv.len() == parts@.len());
            assert(cur.len() == j);
            assert(cur.last() == pdv[j - 1]);
            assert(cur.drop_last() =~~= pdv.take(j - 1));
            assert(pdv[j - 1] == parts@[j - 1]@);
            assert(cur.last() == seg@);
        }
        if seg.len() == 0 || chars_eq_str(seg, ".") {
            j = j - 1;
        } else if chars_eq_str(seg, "..") {
            proof {
                assert(seg@.len() > 0 && seg@ != "."@);
                assert(seg@ == ".."@);
                assert(file_name_of(cur) is None);
                assert(path_file_name(p@) is None);
            }
            return "TalkCody".to_owned();
        } else {
            proof {
                assert(seg@.len() > 0 && seg@ != "."@ && seg@ != ".."@);
                assert(file_name_of(cur) == Some(seg@));
                assert(path_file_name(p@) == Some(seg@));
            }
            let mut title = crate::strutil::chars_to_string(seg);
            title.append(" - TalkCody");
            return title;
        }
    }
    proof {
        assert(pdv.take(0) =~~= Seq::<Seq<char>>::empty());
    }
    "TalkCody".to_owned()
}

/// The registry's view: each window's label and state, oldest first, no
/// label twice.
pub struct WindowRegistry {
    windows: Vec<(String, WindowState)>,
}

/// No label occurs twice.
pub open spec fn distinct_labels(s: Seq<(Seq<char>, WindowStateModel)>) -> bool {
    forall|i: int, j: int| 0 <= i < j < s.len() ==> s[i].0 != s[j].0
}

impl WindowRegistry {
    /// The registered windows, oldest first.
    pub closed spec fn model(self) -> Seq<(Seq<char>, WindowStateModel)> {
        Seq::new(self.windows@.len(), |i: int| (self.windows@[i].0@, self.windows@[i].1.deep_view()))
    }

    /// No label is registered twice.
    pub open spec fn wf(self) -> bool {
        distinct_labels(self.model())
    }

    /// An empty registry.
    pub fn new() -> (r: Self)
        ensures
            r.wf(),
            r.model() == Seq::<(Seq<char>, WindowStateModel)>::empty(),
    {
        let r = WindowRegistry { windows: Vec::new() };
        proof {
            assert(r.model() =~= Seq::<(Seq<char>, WindowStateModel)>::empty());
        }
        r
    }

    /// Find a label's position.
    fn position(&self, label: &str) -> (r: Option<usize>)
        ensures
            match r {
                Some(i) => i < self.model().len() && self.model()[i as int].0 == label@,
                None => forall|i: int| 0 <= i < self.model().len() ==> self.model()[i].0 != label@,
            },
    {
        let n = self.windows.len();
        let mut i: usize = 0;
        while i < n
            invariant
                i <= n,
                n == self.windows@.len(),
                forall|j: int| 0 <= j < i ==> self.model()[j].0 != label@,
        decreases n - i,
        {
            if str_eq(self.windows[i].0.as_str(), label) {
                proof {
                    assert(self.model()[i as int].0 == label@);
                }
                return Some(i);
            }
            i = i + 1;
        }
        None
    }

    /// Register a window: a fresh label goes to the end, a present one has
    /// its state replaced in place, the old watcher stopped.
    pub fn register_window(&mut self, label: String, state: WindowState) -> (r: Result<(), String>)
        requires
            old(self).wf(),
        ensures
            r is Ok,
            final(self).wf(),
            final(self).model() == match find_label(old(self).model(), label@) {
                Some(i) => old(self).model().update(i, (label@, state.deep_view())),
                None => old(self).model().push((label@, state.deep_view())),
            },
    {
        let ghost m0 = self.model();
        match self.position(label.as_str()) {
            Some(i) => {
                proof {
                    lemma_find_label_scan(m0, label@, i as int);
                }
                let mut old_entry = self.windows.remove(i);
                match &mut old_entry.1.file_watcher {
                    Some(w) => {
                        w.stop();
                    },
                    None => {},
                }
                self.windows.insert(i, (label, state));
                proof {
                    assert(self.model() =~= m0.update(i as int, (label@, state.deep_view())));
                    assert forall|x: int, y: int|
                        0 <= x < y < self.model().len() implies self.model()[x].0
                        != self.model()[y].0 by {
                        assert(m0[x].0 != m0[y].0);
                    }
                }
                Ok(())
            },
            None => {
                proof {
                    lemma_find_label_scan(m0, label@, m0.len() as int);
                }
                self.windows.push((label, state));
                proof {
                    assert(self.model() =~= m0.push((label@, state.deep_view())));
                    assert forall|x: int, y: int|
                        0 <= x < y < self.model().len() implies self.model()[x].0
                        != self.model()[y].0 by {
                        if y < m0.len() {
                            assert(m0[x].0 != m0[y].0);
                        } else {
                            assert(self.model()[y].0 == label@);
                            assert(m0[x].0 != label@);
                        }
                    }
                }
                Ok(())
            },
        }
    }

    /// Remove a window, stopping its watcher.
    pub fn unregister_window(&mut self, label: &str) -> (r: Result<(), String>)
        requires
            old(self).wf(),
        ensures
            r is Ok,
            final(self).wf(),
            final(self).model() == match find_label(old(self).model(), label@) {
                Some(i) => old(self).model().remove(i),
                None => old(self).model(),
            },
    {
        let ghost m0 = self.model();
        match self.position(label) {
            Some(i) => {
                proof {
                    lemma_find_label_scan(m0, label@, i as int);
                }
                let mut entry = self.windows.remove(i);
                match &mut entry.1.file_watcher {
                    Some(w) => {
                        w.stop();
                    },
                    None => {},
                }
                proof {
                    assert(self.model() =~= m0.remove(i as int));
                    assert forall|x: int, y: int|
                        0 <= x < y < self.model().len() implies self.model()[x].0
                        != self.model()[y].0 by {
                        let sx: int = if x < i {
                            x
                        } else {
                            x + 1
                        };
                        let sy: int = if y < i {
                            y
                        } else {
                            y + 1
                        };
                        assert(self.model()[x] == m0[sx]);
                        assert(self.model()[y] == m0[sy]);
                        assert(m0[sx].0 != m0[sy].0);
                    }
                }
                Ok(())
            },
            None => {
                proof {
                    lemma_find_label_scan(m0, label@, m0.len() as int);
                }
                Ok(())
            },
        }
    }

    /// Every window's shown form, oldest first, titles derived from the
    /// root paths.
    pub fn get_all_windows(&self) -> (r: Result<Vec<WindowInfo>, String>)
        requires
            self.wf(),
        ensures
            r matches Ok(infos) && infos@.len() == self.model().len() && (forall|i: int|
                0 <= i < self.model().len() ==> {
                    &&& (#[trigger] infos@[i]).label@ == self.model()[i].0
                    &&& crate::events::opt_view(infos@[i].project_id)
                        == self.model()[i].1.project_id
                    &&& crate::events::opt_view(infos@[i].root_path) == self.model()[i].1.root_path
                    &&& infos@[i].title@ == title_of(self.model()[i].1.root_path)
                }),
    {
        let n = self.windows.len();
        let mut infos: Vec<WindowInfo> = Vec::new();
        let mut i: usize = 0;
        while i < n
            invariant
                i <= n,
                n == self.windows@.len(),
                infos@.len() == i,
                forall|j: int|
                    0 <= j < i ==> {
                        &&& (#[trigger] infos@[j]).label@ == self.model()[j].0
                        &&& crate::events::opt_view(infos@[j].project_id)
                            == self.model()[j].1.project_id
                        &&& crate::events::opt_view(infos@[j].root_path)
                            == self.model()[j].1.root_path
                        &&& infos@[j].title@ == title_of(self.model()[j].1.root_path)
                    },
            decreases n - i,
        {
            let entry = &self.windows[i];
            let title = build_window_title(entry.1.root_path.as_ref());
            let info = WindowInfo {
                label: entry.0.clone(),
                project_id: clone_opt_string(&entry.1.project_id),
                root_path: clone_opt_string(&entry.1.root_path),
                title,
            };
            infos.push(info);
            i = i + 1;
        }
        Ok(infos)
    }

    /// The oldest window showing the given project root.
    pub fn find_window_by_project(&self, root_path: &str) -> (r: Result<Option<String>, String>)
        requires
            self.wf(),
        ensures
            r matches Ok(found) && (match found {
                Some(label) => exists|i: int|
                    {
                        &&& 0 <= i < self.model().len()
                        &&& (#[trigger] self.model()[i]).0 == label@
                        &&& self.model()[i].1.root_path == Some(root_path@)
                        &&& forall|j: int|
                            0 <= j < i ==> (#[trigger] self.model()[j]).1.root_path != Some(
                                root_path@,
                            )
                    },
                None => forall|i: int|
                    0 <= i < self.model().len() ==> (#[trigger] self.model()[i]).1.root_path
                        != Some(root_path@),
            }),
    {
        let n = self.windows.len();
        let mut i: usize = 0;
        while i < n
            invariant
                i <= n,
                n == self.windows@.len(),
                forall|j: int|
                    0 <= j < i ==> (#[trigger] self.model()[j]).1.root_path != Some(root_path@),
            decreases n - i,
        {
            let entry = &self.windows[i];
            match &entry.1.root_path {
                Some(path) => {
                    if str_eq(path.as_str(), root_path) {
                        proof {
                            assert(self.model()[i as int].1.root_path == Some(root_path@));
                        }
                        return Ok(Some(entry.0.clone()));
                    }
                },
                None => {},
            }
            i = i + 1;
        }
        Ok(None)
    }

    /// Point a window at another project, keeping its watcher.
    pub fn update_window_project(
        &mut self,
        label: &str,
        project_id: Option<String>,
        root_path: Option<String>,
    ) -> (r: Result<(), String>)
        requires
            old(self).wf(),
        ensures
            r is Ok,
            final(self).wf(),
            final(self).model() == match find_label(old(self).model(), label@) {
                Some(i) => old(self).model().update(
                    i,
                    (
                        label@,
                        WindowStateModel {
                            project_id: crate::events::opt_view(project_id),
                            root_path: crate::events::opt_view(root_path),
                            watcher: old(self).model()[i].1.watcher,
                        },
                    ),
                ),
                None => old(self).model(),
            },
    {
        let ghost m0 = self.model();
        match self.position(label) {
            Some(i) => {
                proof {
                    lemma_find_label_scan(m0, label@, i as int);
                }
                let entry = self.windows.remove(i);
                let new_state = WindowState {
                    project_id,
                    root_path,
                    file_watcher: entry.1.file_watcher,
                };
                self.windows.insert(i, (entry.0, new_state));
                proof {
                    assert(self.model() =~= m0.update(
                        i as int,
                        (label@, self.model()[i as int].1),
                    ));
                    assert forall|x: int, y: int|
                        0 <= x < y < self.model().len() implies self.model()[x].0
                        != self.model()[y].0 by {
                        assert(m0[x].0 != m0[y].0);
                    }
                }
                Ok(())
            },
            None => {
                proof {
                    lemma_find_label_scan(m0, label@, m0.len() as int);
                }
                Ok(())
            },
        }
    }

    /// Give a window a watcher, stopping whichever it held.
    pub fn set_window_file_watcher(
        &mut self,
        label: &str,
        watcher: Option<FileWatcher>,
    ) -> (r: Result<(), String>)
        requires
            old(self).wf(),
        ensures
            r is Ok,
            final(self).wf(),
            final(self).model() == match find_label(old(self).model(), label@) {
                Some(i) => old(self).model().update(
                    i,
                    (
                        label@,
                        WindowStateModel {
                            watcher: match watcher {
                                Some(w) => Some(w.is_active()),
                                None => None,
                            },
                            ..old(self).model()[i].1
                        },
                    ),
                ),
                None => old(self).model(),
            },
    {
        let ghost m0 = self.model();
        match self.position(label) {
            Some(i) => {
                proof {
                    lemma_find_label_scan(m0, label@, i as int);
                }
                let mut entry = self.windows.remove(i);
                match &mut entry.1.file_watcher {
                    Some(w) => {
                        w.stop();
                    },
                    None => {},
                }
                let new_state = WindowState {
                    project_id: entry.1.project_id,
                    root_path: entry.1.root_path,
                    file_watcher: watcher,
                };
                self.windows.insert(i, (entry.0, new_state));
                proof {
                    assert(self.model() =~= m0.update(
                        i as int,
                        (label@, self.model()[i as int].1),
                    ));
                    assert forall|x: int, y: int|
                        0 <= x < y < self.model().len() implies self.model()[x].0
                        != self.model()[y].0 by {
                        assert(m0[x].0 != m0[y].0);
                    }
                }
                Ok(())
            },
            None => {
                proof {
                    lemma_find_label_scan(m0, label@, m0.len() as int);
                }
                Ok(())
            },
        }
    }

    /// Stop every window's watcher, keeping the windows themselves.
    pub fn cleanup_all_watchers(&mut self)
        requires
            old(self).wf(),
        ensures
            final(self).wf(),
            final(self).model().len() == old(self).model().len(),
            forall|i: int|
                0 <= i < old(self).model().len() ==> {
                    &&& (#[trigger] final(self).model()[i]).0 == old(self).model()[i].0
                    &&& final(self).model()[i].1.project_id == old(self).model()[i].1.project_id
                    &&& final(self).model()[i].1.root_path == old(self).model()[i].1.root_path
                    &&& final(self).model()[i].1.watcher is None
                },
    {
        let n = self.windows.len();
        let mut i: usize = 0;
        while i < n
            invariant
                i <= n,
                n == self.windows@.len(),
                self.model().len() == old(self).model().len(),
                forall|j: int|
                    i <= j < n ==> #[trigger] self.model()[j] == old(self).model()[j],
                forall|j: int|
                    0 <= j < i ==> {
                        &&& (#[trigger] self.model()[j]).0 == old(self).model()[j].0
                        &&& self.model()[j].1.project_id == old(self).model()[j].1.project_id
                        &&& self.model()[j].1.root_path == old(self).model()[j].1.root_path
                        &&& self.model()[j].1.watcher is None
                    },
            decreases n - i,
        {
            let ghost mpre = self.model();
            let mut entry = self.windows.remove(i);
            match &mut entry.1.file_watcher {
                Some(w) => {
                    w.stop();
                },
                None => {},
            }
            let new_state = WindowState {
                project_id: entry.1.project_id,
                root_path: entry.1.root_path,
                file_watcher: None,
            };
            self.windows.insert(i, (entry.0, new_state));
            proof {
                assert(self.model() =~= mpre.update(
                    i as int,
                    (mpre[i as int].0, self.model()[i as int].1),
                ));
            }
            i = i + 1;
        }
        proof {
            assert forall|x: int, y: int|
                0 <= x < y < self.model().len() implies self.model()[x].0 != self.model()[y].0 by {
                assert(old(self).model()[x].0 != old(self).model()[y].0);
            }
        }
    }
}

/// The position of the oldest window with the given label.
pub open spec fn find_label(s: Seq<(Seq<char>, WindowStateModel)>, label: Seq<char>) -> Option<
    int,
>
    decreases s.len(),
{
    if s.len() == 0 {
        None
    } else if s[0].0 == label {
        Some(0)
    } else {
        match find_label(s.drop_first(), label) {
            Some(i) => Some(i + 1),
            None => None,
        }
    }
}

proof fn lemma_find_label_scan(s: Seq<(Seq<char>, WindowStateModel)>, label: Seq<char>, i: int)
    requires
        0 <= i <= s.len(),
        forall|j: int| 0 <= j < i ==> s[j].0 != label,
        i < s.len() ==> s[i].0 == label,
    ensures
        find_label(s, label) == if i < s.len() {
            Some(i)
        } else {
            None::<int>
        },
    decreases s.len(),
{
    if s.len() == 0 {
    } else if s[0].0 == label {
        assert(i == 0);
    } else {
        lemma_find_label_scan(s.drop_first(), label, i - 1);
    }
}

/// Copy an optional string.
fn clone_opt_string(o: &Option<String>) -> (r: Option<String>)
    ensures
        crate::events::opt_view(r) == crate::events::opt_view(*o),
{
    match o {
        Some(s) => Some(s.clone()),
        None => None,
    }
}

/// Relies on the system clock: the milliseconds since the epoch, or zero
/// when the clock sits before it.
#[verifier::external_body]
pub fn now_ms() -> u64 {
    match std::time::SystemTime::now().duration_since(std::time::UNIX_EPOCH) {
        Ok(d) => d.as_millis() as u64,
        Err(_) => 0,
    }
}

/// The decimal digits of a number, most significant first.
pub open spec fn dec_digits(n: int) -> Seq<char>
    decreases n,
{
    if n < 10 {
        seq![digit_char(n)]
    } else {
        dec_digits(n / 10).push(digit_char(n % 10))
    }
}

/// The character of one decimal digit.
pub open spec fn digit_char(d: int) -> char {
    ((48 + d) as u8) as char
}

/// Render a number in decimal.
pub fn u64_to_dec(n: u64) -> (r: Vec<char>)
    ensures
        r@ == dec_digits(n as int),
    decreases n,
{
    if n < 10 {
        let mut v: Vec<char> = Vec::new();
        v.push(((48 + (n as u8)) as u8) as char);
        proof {
            assert(v@ =~= seq![digit_char(n as int)]);
        }
        v
    } else {
        let mut v = u64_to_dec(n / 10);
        v.push(((48 + ((n % 10) as u8)) as u8) as char);
        proof {
            assert(v@ =~= dec_digits(n as int / 10).push(digit_char(n as int % 10)));
        }
        v
    }
}

/// A fresh window label: the fixed prefix and the clock's milliseconds.
pub fn generate_window_label() -> (r: Result<String, String>)
    ensures
        r matches Ok(label) ==> exists|ms: int|
            0 <= ms && label@ == "window-"@ + dec_digits(ms),
{
    let ms = now_ms();
    let digits = u64_to_dec(ms);
    let mut label = "window-".to_owned();
    label.append(crate::strutil::chars_to_string(&digits).as_str());
    proof {
        assert(label@ == "window-"@ + dec_digits(ms as int));
    }
    Ok(label)
}

} // verus!
