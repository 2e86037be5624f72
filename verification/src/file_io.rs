//! The file-persistence side of the pipeline: the code-fence extraction
//! state machine and the registry of files created during the session.
//!
//! `FileIO` consumes reply fragments (delivered as `FileIOMessage`s over
//! a bounded queue) and decides, line by line, what must reach the disk.
//! It owns no file handles itself: every decision is returned as a
//! `FileOp`, and the unverified worker loop performs the actual I/O in
//! the order given.

use vstd::prelude::*;
use crate::extensions::resolve_extension;
use crate::extensions::spec_extension_for;
use crate::paths::build_target_path;
use crate::paths::spec_target_path;
use crate::text::spec_split_lines;
use crate::text::split_lines;

verus! {

/// Kind of command a `FileIOMessage` carries.
pub enum Message {
    Write,
    Remove,
}

/// A command for the file worker: either a reply fragment to scan and
/// persist, or the request to delete everything written this session.
pub struct FileIOMessage {
    pub text: String,
    pub message: Message,
    pub file_name: String,
}

/// The fence-detection state: outside any code block, or inside the
/// block persisted to `path`. An active state always carries its target,
/// so "writing with no target" cannot be represented.
pub enum FenceState {
    Inactive,
    Active { path: String },
}

/// A disk action decided by the worker logic, to be performed by the
/// unverified I/O loop in the order returned.
pub enum FileOp {
    Append { path: String, text: String },
    Delete { path: String },
}

pub ghost enum FileOpView {
    Append { path: Seq<char>, text: Seq<char> },
    Delete { path: Seq<char> },
}

impl View for FileOp {
    type V = FileOpView;

    open spec fn view(&self) -> FileOpView {
        match self {
            FileOp::Append { path, text } => FileOpView::Append { path: path@, text: text@ },
            FileOp::Delete { path } => FileOpView::Delete { path: path@ },
        }
    }
}

impl DeepView for FileOp {
    type V = FileOpView;

    open spec fn deep_view(&self) -> FileOpView {
        self.view()
    }
}

/// The session's file state: fence detection, the registry of created
/// paths in creation order, the prompt-derived base name for new files,
/// and the count of blocks opened so far (never reset, so every block
/// gets a fresh target path).
pub struct FileIO {
    state: FenceState,
    files: Vec<String>,
    file_name: String,
    blocks_opened: u64,
}

pub ghost struct FileIOView {
    pub active: Option<Seq<char>>,
    pub files: Seq<Seq<char>>,
    pub file_name: Seq<char>,
    pub blocks_opened: nat,
}

impl View for FileIO {
    type V = FileIOView;

    closed spec fn view(&self) -> FileIOView {
        FileIOView {
            active: match self.state {
                FenceState::Inactive => None,
                FenceState::Active { path } => Some(path@),
            },
            files: self.files.deep_view(),
            file_name: self.file_name@,
            blocks_opened: self.blocks_opened as nat,
        }
    }
}

/// A fence marker starts at position `i` of `line`.
pub open spec fn marker_at(line: Seq<char>, i: int) -> bool {
    &&& 0 <= i
    &&& i + 3 <= line.len()
    &&& line[i] == '`'
    &&& line[i + 1] == '`'
    &&& line[i + 2] == '`'
}

/// The line contains a triple-backtick fence marker.
pub open spec fn has_marker(line: Seq<char>) -> bool {
    exists|i: int| marker_at(line, i)
}

/// Position of the first fence marker, or `line.len()` when none occurs.
pub open spec fn first_marker(line: Seq<char>) -> nat
    decreases line.len(),
{
    if line.len() < 3 {
        line.len()
    } else if line[0] == '`' && line[1] == '`' && line[2] == '`' {
        0
    } else {
        1 + first_marker(line.drop_first())
    }
}

pub proof fn lemma_first_marker(line: Seq<char>)
    ensures
        first_marker(line) <= line.len(),
        first_marker(line) < line.len() ==> marker_at(line, first_marker(line) as int),
        forall|j: int| 0 <= j < first_marker(line) ==> !marker_at(line, j),
        first_marker(line) == line.len() ==> !has_marker(line),
    decreases line.len(),
{
    if line.len() < 3 {
        assert(forall|j: int| !marker_at(line, j));
    } else if line[0] == '`' && line[1] == '`' && line[2] == '`' {
    } else {
        let rest = line.drop_first();
        lemma_first_marker(rest);
        let f = first_marker(line);
        assert(f == 1 + first_marker(rest));
        if first_marker(rest) < rest.len() {
            assert(marker_at(rest, first_marker(rest) as int));
            assert(marker_at(line, f as int));
        }
        assert forall|j: int| 0 <= j < f implies !marker_at(line, j) by {
            if j == 0 {
                assert(!(line[0] == '`' && line[1] == '`' && line[2] == '`'));
            } else if marker_at(line, j) {
                assert(marker_at(rest, j - 1));
            }
        }
        if f == line.len() {
            assert forall|j: int| !marker_at(line, j) by {
                if 0 <= j < f {
                } else {
                    assert(!(0 <= j && j + 3 <= line.len()) || j >= f);
                    if 0 <= j && j + 3 <= line.len() {
                        assert(j < line.len());
                    }
                }
            }
        }
    }
}

/// Scan `line` for the first fence marker; `line.len()` means none.
pub fn find_marker(line: &str) -> (i: usize)
    ensures
        i as nat == first_marker(line@),
        i <= line@.len(),
        i < line@.len() ==> marker_at(line@, i as int),
        i == line@.len() ==> !has_marker(line@),
{
    proof {
        lemma_first_marker(line@);
    }
    let len = line.unicode_len();
    if len < 3 {
        return len;
    }
    let mut i: usize = 0;
    while i <= len - 3
        invariant
            len == line@.len(),
            3 <= len,
            i <= len - 2,
            forall|j: int| 0 <= j < i ==> !marker_at(line@, j),
        decreases len - i,
    {
        if line.get_char(i) == '`' && line.get_char(i + 1) == '`' && line.get_char(i + 2) == '`' {
            proof {
                lemma_first_marker(line@);
                let f = first_marker(line@);
                assert(marker_at(line@, i as int));
                if f < i {
                    assert(marker_at(line@, f as int));
                }
            }
            return i;
        }
        i += 1;
    }
    proof {
        lemma_first_marker(line@);
        let f = first_marker(line@);
        if f < len {
            assert(marker_at(line@, f as int));
            assert(f + 3 <= len);
        }
    }
    len
}

/// Whether some entry of `v` reads `x`.
fn contains_string(v: &Vec<String>, x: &String) -> (r: bool)
    ensures
        r == v.deep_view().contains(x@),
{
    let mut k: usize = 0;
    while k < v.len()
        invariant
            k <= v.len(),
            forall|j: int| 0 <= j < k ==> v.deep_view()[j] != x@,
        decreases v.len() - k,
    {
        proof {
            assert(v.deep_view()[k as int] == v@[k as int]@);
        }
        if v[k] == *x {
            proof {
                assert(v.deep_view()[k as int] == x@);
            }
            return true;
        }
        k += 1;
    }
    proof {
        if v.deep_view().contains(x@) {
            let j = choose|j: int| 0 <= j < v.deep_view().len() && v.deep_view()[j] == x@;
            assert(v.deep_view()[j] != x@);
        }
    }
    false
}

/// The language tag of a fence-open line: everything after the marker,
/// with a trailing carriage return dropped so that replies with CRLF
/// line endings still resolve their tag.
pub open spec fn spec_tag_of(line: Seq<char>) -> Seq<char> {
    let t = line.skip(first_marker(line) as int + 3);
    if t.len() > 0 && t.last() == '\r' {
        t.drop_last()
    } else {
        t
    }
}

/// Target path of the block a fence-open line starts, given the state
/// the extractor was in when it met the line.
pub open spec fn spec_open_path(v: FileIOView, line: Seq<char>) -> Seq<char> {
    spec_target_path(v.blocks_opened, v.file_name, spec_extension_for(spec_tag_of(line)))
}

/// One step of fence detection on one line. A line without a marker
/// leaves the state alone; a marker line closes an active block or opens
/// a new one, recording the fresh target in the registry if absent.
pub open spec fn spec_check_step(v: FileIOView, line: Seq<char>) -> FileIOView {
    if !has_marker(line) {
        v
    } else if v.active is Some {
        FileIOView { active: None, ..v }
    } else {
        let path = spec_open_path(v, line);
        FileIOView {
            active: Some(path),
            files: if v.files.contains(path) {
                v.files
            } else {
                v.files.push(path)
            },
            file_name: v.file_name,
            blocks_opened: v.blocks_opened + 1,
        }
    }
}

pub ghost struct FileIOMessageView {
    pub text: Seq<char>,
    pub message: Message,
    pub file_name: Seq<char>,
}

impl View for FileIOMessage {
    type V = FileIOMessageView;

    open spec fn view(&self) -> FileIOMessageView {
        FileIOMessageView {
            text: self.text@,
            message: self.message,
            file_name: self.file_name@,
        }
    }
}

impl DeepView for FileIOMessage {
    type V = FileIOMessageView;

    open spec fn deep_view(&self) -> FileIOMessageView {
        self.view()
    }
}

/// What a non-marker line contributes to its file: the line itself, with
/// its newline restored unless it is the final line of the fragment.
pub open spec fn line_out_text(line: Seq<char>, is_last: bool) -> Seq<char> {
    if is_last {
        line
    } else {
        line + seq!['\n']
    }
}

/// The append command one line produces: nothing for a marker line or
/// outside a block, the line's text targeted at the active block's file
/// otherwise.
pub open spec fn spec_line_ops(v: FileIOView, line: Seq<char>, is_last: bool) -> Seq<FileOpView> {
    if has_marker(line) {
        seq![]
    } else {
        match v.active {
            Some(path) => seq![
                FileOpView::Append { path: path, text: line_out_text(line, is_last) },
            ],
            None => seq![],
        }
    }
}

/// Fold the fence state machine over `lines[k..]`, collecting the
/// append commands the lines produce.
pub open spec fn spec_process_from(v: FileIOView, lines: Seq<Seq<char>>, k: int) -> (
    FileIOView,
    Seq<FileOpView>,
)
    decreases lines.len() - k,
{
    if k < 0 || k >= lines.len() {
        (v, Seq::<FileOpView>::empty())
    } else {
        let line = lines[k];
        let v1 = spec_check_step(v, line);
        let ops0 = spec_line_ops(v, line, k == lines.len() - 1);
        let r = spec_process_from(v1, lines, k + 1);
        (r.0, ops0 + r.1)
    }
}

/// State and append commands after scanning a whole fragment.
pub open spec fn spec_process(v: FileIOView, lines: Seq<Seq<char>>) -> (
    FileIOView,
    Seq<FileOpView>,
) {
    spec_process_from(v, lines, 0)
}

/// Deletions of every registered path, in reverse creation order.
pub open spec fn spec_remove_ops(files: Seq<Seq<char>>) -> Seq<FileOpView> {
    Seq::new(files.len(), |i: int| FileOpView::Delete { path: files[files.len() - 1 - i] })
}

/// What one queue command does to the worker state, and the disk
/// actions it triggers.
pub open spec fn spec_handle(v: FileIOView, m: FileIOMessageView) -> (
    FileIOView,
    Seq<FileOpView>,
) {
    match m.message {
        Message::Write => spec_process(
            FileIOView { file_name: m.file_name, ..v },
            spec_split_lines(m.text),
        ),
        Message::Remove => (
            FileIOView { files: Seq::<Seq<char>>::empty(), ..v },
            spec_remove_ops(v.files),
        ),
    }
}

impl FileIO {
    /// A fresh worker: no fence active, no files created, no name set.
    pub fn new() -> (s: Self)
        ensures
            s@.active is None,
            s@.files == Seq::<Seq<char>>::empty(),
            s@.file_name == Seq::<char>::empty(),
            s@.blocks_opened == 0,
    {
        let s = FileIO {
            state: FenceState::Inactive,
            files: Vec::new(),
            file_name: String::new(),
            blocks_opened: 0,
        };
        proof {
            assert(s@.files =~= Seq::<Seq<char>>::empty());
        }
        s
    }

    /// The registry of paths created this session, in creation order.
    pub fn files(&self) -> (f: &Vec<String>)
        ensures
            f.deep_view() == self@.files,
    {
        &self.files
    }

    /// How many blocks were opened so far.
    pub fn blocks_opened(&self) -> (n: u64)
        ensures
            n == self@.blocks_opened,
    {
        self.blocks_opened
    }

    fn is_active(&self) -> (r: bool)
        ensures
            r == (self@.active is Some),
    {
        match &self.state {
            FenceState::Active { .. } => true,
            FenceState::Inactive => false,
        }
    }

    /// Detect a fence marker in `line` and take the corresponding
    /// transition: close the active block, or open a new one whose
    /// target is derived from the block counter, the session file name
    /// and the tag after the marker. Returns whether a marker was found;
    /// the marker line itself is never written to a file.
    pub fn check_for_code(&mut self, line: &str) -> (found: bool)
        requires
            old(self)@.blocks_opened < u64::MAX,
        ensures
            final(self)@ == spec_check_step(old(self)@, line@),
            found == has_marker(line@),
    {
        let len = line.unicode_len();
        let i = find_marker(line);
        if i >= len {
            return false;
        }
        assert(has_marker(line@));
        if self.is_active() {
            self.state = FenceState::Inactive;
        } else {
            let tag_end = if len > i + 3 && line.get_char(len - 1) == '\r' {
                len - 1
            } else {
                len
            };
            let tag = line.substring_char(i + 3, tag_end);
            proof {
                let t = line@.skip(i as int + 3);
                assert(t =~= line@.subrange(i as int + 3, len as int));
                if t.len() > 0 {
                    assert(t.last() == line@[len - 1]);
                }
                if tag_end < len {
                    assert(tag@ =~= t.drop_last());
                }
                assert(tag@ =~= spec_tag_of(line@));
            }
            let ext = resolve_extension(tag);
            let path = build_target_path(self.blocks_opened, self.file_name.as_str(), ext.as_str());
            let ghost pre = self@;
            if !contains_string(&self.files, &path) {
                self.files.push(path.clone());
                proof {
                    assert(self.files.deep_view() =~= pre.files.push(path@));
                }
            }
            self.state = FenceState::Active { path };
            self.blocks_opened = self.blocks_opened + 1;
        }
        true
    }

    /// Scan one reply fragment line by line: marker lines drive the
    /// fence state machine and are consumed; lines inside a block become
    /// append commands for the block's file, each with its newline
    /// restored except the fragment's final line; prose outside blocks
    /// produces nothing.
    pub fn write(&mut self, message: &str) -> (ops: Vec<FileOp>)
        requires
            old(self)@.blocks_opened + spec_split_lines(message@).len() <= u64::MAX,
        ensures
            final(self)@ == spec_process(old(self)@, spec_split_lines(message@)).0,
            ops.deep_view() == spec_process(old(self)@, spec_split_lines(message@)).1,
    {
        let lines = split_lines(message);
        let ghost l = lines.deep_view();
        let ghost v0 = self@;
        let n = lines.len();
        let mut ops: Vec<FileOp> = Vec::new();
        let mut i: usize = 0;
        proof {
            assert(ops.deep_view() =~= Seq::<FileOpView>::empty());
            assert(ops.deep_view() + spec_process_from(self@, l, 0).1 =~= spec_process_from(
                v0,
                l,
                0,
            ).1);
        }
        while i < n
            invariant
                i <= n,
                n == l.len(),
                l == lines.deep_view(),
                self@.blocks_opened + (n - i) <= u64::MAX,
                spec_process_from(v0, l, 0).0 == spec_process_from(self@, l, i as int).0,
                spec_process_from(v0, l, 0).1 == ops.deep_view() + spec_process_from(
                    self@,
                    l,
                    i as int,
                ).1,
            decreases n - i,
        {
            let ghost v_pre = self@;
            let ghost ops_pre = ops.deep_view();
            let line = &lines[i];
            proof {
                assert(l[i as int] == line@);
            }
            let found = self.check_for_code(line.as_str());
            if !found {
                match &self.state {
                    FenceState::Active { path } => {
                        let text = if i == n - 1 {
                            String::from_str(line.as_str())
                        } else {
                            String::from_str(line.as_str()).concat("\n")
                        };
                        proof {
                            reveal_strlit("\n");
                            assert("\n"@ =~= seq!['\n']);
                            assert(text@ == line_out_text(l[i as int], i as int == l.len() - 1));
                        }
                        let op = FileOp::Append { path: path.clone(), text };
                        ops.push(op);
                        proof {
                            assert(ops.deep_view() =~= ops_pre + spec_line_ops(
                                v_pre,
                                l[i as int],
                                i as int == l.len() - 1,
                            ));
                        }
                    }
                    FenceState::Inactive => {
                        proof {
                            assert(ops.deep_view() =~= ops_pre + spec_line_ops(
                                v_pre,
                                l[i as int],
                                i as int == l.len() - 1,
                            ));
                        }
                    }
                }
            } else {
                proof {
                    assert(ops.deep_view() =~= ops_pre + spec_line_ops(
                        v_pre,
                        l[i as int],
                        i as int == l.len() - 1,
                    ));
                }
            }
            proof {
                let step = spec_process_from(v_pre, l, i as int);
                assert(step.0 == spec_process_from(self@, l, i as int + 1).0);
                assert(step.1 == spec_line_ops(v_pre, l[i as int], i as int == l.len() - 1)
                    + spec_process_from(self@, l, i as int + 1).1);
                assert(spec_process_from(v0, l, 0).1 == ops.deep_view() + spec_process_from(
                    self@,
                    l,
                    i as int + 1,
                ).1);
            }
            i += 1;
        }
        proof {
            assert(spec_process_from(self@, l, n as int).1 =~= Seq::<FileOpView>::empty());
            assert(ops.deep_view() + Seq::<FileOpView>::empty() =~= ops.deep_view());
        }
        ops
    }

    /// Clear the registry and return a deletion for every path created
    /// this session, most recent first. Issued for the `Remove` command;
    /// a second call right after finds the registry empty and deletes
    /// nothing.
    pub fn remove(&mut self) -> (ops: Vec<FileOp>)
        ensures
            final(self)@.active == old(self)@.active,
            final(self)@.file_name == old(self)@.file_name,
            final(self)@.blocks_opened == old(self)@.blocks_opened,
            final(self)@.files == Seq::<Seq<char>>::empty(),
            ops.deep_view() == spec_remove_ops(old(self)@.files),
    {
        let ghost d0 = self@.files;
        let ghost a0 = self@.active;
        let ghost n0 = self@.file_name;
        let ghost b0 = self@.blocks_opened;
        let mut ops: Vec<FileOp> = Vec::new();
        while self.files.len() > 0
            invariant
                self@.active == a0,
                self@.file_name == n0,
                self@.blocks_opened == b0,
                ops.len() <= d0.len(),
                self@.files == d0.take(d0.len() - ops.len()),
                ops.deep_view() == Seq::new(
                    ops.len() as nat,
                    |i: int| FileOpView::Delete { path: d0[d0.len() - 1 - i] },
                ),
            decreases self.files.len(),
        {
            let ghost fs_pre = self@.files;
            let ghost ops_pre = ops.deep_view();
            let ghost t = ops.len() as int;
            match self.files.pop() {
                Some(f) => {
                    let ghost fv = f@;
                    proof {
                        assert(fs_pre.len() > 0);
                        assert(fv == fs_pre[fs_pre.len() - 1]);
                        assert(fv == d0[d0.len() - t - 1]);
                        assert(self@.files =~= d0.take(d0.len() - t - 1));
                    }
                    ops.push(FileOp::Delete { path: f });
                    proof {
                        assert(ops.deep_view() =~= ops_pre.push(FileOpView::Delete { path: fv }));
                        assert(ops.deep_view() =~= Seq::new(
                            (t + 1) as nat,
                            |i: int| FileOpView::Delete { path: d0[d0.len() - 1 - i] },
                        ));
                    }
                }
                None => {}
            }
        }
        proof {
            assert(ops.len() == d0.len());
            assert(ops.deep_view() =~= spec_remove_ops(d0));
            assert(self@.files =~= Seq::<Seq<char>>::empty());
        }
        ops
    }

    /// Apply one queue command: a `Write` adopts the command's file name
    /// and scans its fragment; a `Remove` clears the session's files.
    /// The returned disk actions are performed by the worker loop in
    /// order.
    pub fn handle_message(&mut self, msg: FileIOMessage) -> (ops: Vec<FileOp>)
        requires
            msg.message is Write ==> old(self)@.blocks_opened + spec_split_lines(
                msg.text@,
            ).len() <= u64::MAX,
        ensures
            final(self)@ == spec_handle(old(self)@, msg@).0,
            ops.deep_view() == spec_handle(old(self)@, msg@).1,
    {
        match msg.message {
            Message::Write => {
                self.file_name = msg.file_name;
                self.write(msg.text.as_str())
            }
            Message::Remove => self.remove(),
        }
    }
}

} // verus!
