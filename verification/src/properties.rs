//! Laws of the extraction pipeline, stated over the spec-level model
//! that the executable functions are proved against: what a reply with
//! balanced fence pairs persists, and that removing everything twice is
//! harmless.

use vstd::prelude::*;
use crate::extensions::spec_extension_for;
use crate::file_io::FileIOMessageView;
use crate::file_io::FileIOView;
use crate::file_io::FileOpView;
use crate::file_io::Message;
use crate::file_io::has_marker;
use crate::file_io::spec_check_step;
use crate::file_io::spec_handle;
use crate::file_io::spec_line_ops;
use crate::file_io::spec_open_path;
use crate::file_io::spec_process;
use crate::file_io::spec_process_from;
use crate::file_io::spec_remove_ops;
use crate::paths::lemma_target_paths_distinct;
use crate::paths::spec_target_path;

verus! {

/// Every registered path was created under an earlier block counter.
/// Holds of a fresh worker and is preserved by every step, and makes
/// the next block's target provably absent from the registry.
pub open spec fn files_bounded(v: FileIOView) -> bool {
    forall|i: int|
        0 <= i < v.files.len() ==> exists|c: nat, n: Seq<char>, e: Seq<char>|
            c < v.blocks_opened && #[trigger] v.files[i] == spec_target_path(c, n, e)
}

/// `p` is a target path carrying block counter `c`.
pub open spec fn is_path_with_counter(p: Seq<char>, c: nat) -> bool {
    exists|n: Seq<char>, e: Seq<char>| p == spec_target_path(c, n, e)
}

/// One balanced fence pair as it occurs in a reply: prose before it,
/// the opening marker line, the block body, and the closing marker
/// line.
pub ghost struct FenceBlock {
    pub prose: Seq<Seq<char>>,
    pub open_line: Seq<char>,
    pub body: Seq<Seq<char>>,
    pub close_line: Seq<char>,
}

pub open spec fn block_wf(b: FenceBlock) -> bool {
    &&& forall|i: int| 0 <= i < b.prose.len() ==> !has_marker(#[trigger] b.prose[i])
    &&& has_marker(b.open_line)
    &&& forall|i: int| 0 <= i < b.body.len() ==> !has_marker(#[trigger] b.body[i])
    &&& has_marker(b.close_line)
}

pub open spec fn blocks_wf(blocks: Seq<FenceBlock>) -> bool {
    forall|i: int| 0 <= i < blocks.len() ==> block_wf(#[trigger] blocks[i])
}

pub open spec fn prose_only(lines: Seq<Seq<char>>) -> bool {
    forall|i: int| 0 <= i < lines.len() ==> !has_marker(#[trigger] lines[i])
}

/// The lines one block contributes to the reply.
pub open spec fn block_lines(b: FenceBlock) -> Seq<Seq<char>> {
    b.prose + seq![b.open_line] + b.body + seq![b.close_line]
}

/// The lines of a whole reply: the blocks in order, then trailing
/// prose.
pub open spec fn all_lines(blocks: Seq<FenceBlock>, trailing: Seq<Seq<char>>) -> Seq<Seq<char>>
    decreases blocks.len(),
{
    if blocks.len() == 0 {
        trailing
    } else {
        block_lines(blocks[0]) + all_lines(blocks.drop_first(), trailing)
    }
}

/// The worker state after one whole block: the fence is closed again,
/// the block's target is registered, and the counter has moved on.
pub open spec fn block_step(v: FileIOView, b: FenceBlock) -> FileIOView {
    FileIOView {
        active: None,
        files: v.files.push(spec_open_path(v, b.open_line)),
        file_name: v.file_name,
        blocks_opened: v.blocks_opened + 1,
    }
}

pub open spec fn spec_after_blocks(v: FileIOView, blocks: Seq<FenceBlock>) -> FileIOView
    decreases blocks.len(),
{
    if blocks.len() == 0 {
        v
    } else {
        spec_after_blocks(block_step(v, blocks[0]), blocks.drop_first())
    }
}

/// The append commands one block's body produces: each body line with
/// its newline, targeted at the block's file, in order.
pub open spec fn body_ops(path: Seq<char>, body: Seq<Seq<char>>) -> Seq<FileOpView> {
    body.map_values(|l: Seq<char>| FileOpView::Append { path: path, text: l + seq!['\n'] })
}

/// The append commands of a whole reply, block by block.
pub open spec fn blocks_ops(v: FileIOView, blocks: Seq<FenceBlock>) -> Seq<FileOpView>
    decreases blocks.len(),
{
    if blocks.len() == 0 {
        Seq::<FileOpView>::empty()
    } else {
        body_ops(spec_open_path(v, blocks[0].open_line), blocks[0].body) + blocks_ops(
            block_step(v, blocks[0]),
            blocks.drop_first(),
        )
    }
}

/// The target paths of a reply's blocks, in order.
pub open spec fn block_paths(v: FileIOView, blocks: Seq<FenceBlock>) -> Seq<Seq<char>>
    decreases blocks.len(),
{
    if blocks.len() == 0 {
        Seq::<Seq<char>>::empty()
    } else {
        seq![spec_open_path(v, blocks[0].open_line)] + block_paths(
            block_step(v, blocks[0]),
            blocks.drop_first(),
        )
    }
}

/// Concatenation of everything the commands append to `path`, in
/// order.
pub open spec fn appends_to(ops: Seq<FileOpView>, path: Seq<char>) -> Seq<char>
    decreases ops.len(),
{
    if ops.len() == 0 {
        Seq::<char>::empty()
    } else {
        (match ops[0] {
            FileOpView::Append { path: p, text } => if p == path {
                text
            } else {
                Seq::<char>::empty()
            },
            FileOpView::Delete { .. } => Seq::<char>::empty(),
        }) + appends_to(ops.drop_first(), path)
    }
}

/// The text standing between a block's two marker lines: its body
/// lines, each ending in its newline.
pub open spec fn body_text(body: Seq<Seq<char>>) -> Seq<char>
    decreases body.len(),
{
    if body.len() == 0 {
        Seq::<char>::empty()
    } else {
        body[0] + seq!['\n'] + body_text(body.drop_first())
    }
}

proof fn lemma_appends_to_concat(a: Seq<FileOpView>, b: Seq<FileOpView>, path: Seq<char>)
    ensures
        appends_to(a + b, path) == appends_to(a, path) + appends_to(b, path),
    decreases a.len(),
{
    if a.len() == 0 {
        assert(a + b =~= b);
        assert(appends_to(a, path) + appends_to(b, path) =~= appends_to(b, path));
    } else {
        assert((a + b).drop_first() =~= a.drop_first() + b);
        assert((a + b)[0] == a[0]);
        lemma_appends_to_concat(a.drop_first(), b, path);
        assert(appends_to(a + b, path) =~= appends_to(a, path) + appends_to(b, path));
    }
}

proof fn lemma_appends_to_body_ops(target: Seq<char>, path: Seq<char>, body: Seq<Seq<char>>)
    ensures
        path == target ==> appends_to(body_ops(path, body), target) == body_text(body),
        path != target ==> appends_to(body_ops(path, body), target) == Seq::<char>::empty(),
    decreases body.len(),
{
    let ops = body_ops(path, body);
    if body.len() == 0 {
        assert(ops =~= Seq::<FileOpView>::empty());
    } else {
        lemma_appends_to_body_ops(target, path, body.drop_first());
        assert(ops[0] == FileOpView::Append { path: path, text: body[0] + seq!['\n'] });
        assert(ops.drop_first() =~= body_ops(path, body.drop_first()));
        if path == target {
            assert(appends_to(ops, target) =~= body_text(body));
        } else {
            assert(appends_to(ops, target) =~= Seq::<char>::empty());
        }
    }
}

/// No later block ever appends to the file of an earlier one: later
/// blocks carry later counters.
proof fn lemma_blocks_ops_miss(v: FileIOView, blocks: Seq<FenceBlock>, p: Seq<char>, c: nat)
    requires
        c < v.blocks_opened,
        is_path_with_counter(p, c),
    ensures
        appends_to(blocks_ops(v, blocks), p) == Seq::<char>::empty(),
    decreases blocks.len(),
{
    if blocks.len() > 0 {
        let b = blocks[0];
        let p0 = spec_open_path(v, b.open_line);
        let (n, e) = choose|n: Seq<char>, e: Seq<char>| p == #[trigger] spec_target_path(c, n, e);
        lemma_target_paths_distinct(
            c,
            n,
            e,
            v.blocks_opened,
            v.file_name,
            spec_extension_for(crate::file_io::spec_tag_of(b.open_line)),
        );
        assert(p != p0);
        lemma_appends_to_body_ops(p, p0, b.body);
        let v2 = block_step(v, b);
        lemma_blocks_ops_miss(v2, blocks.drop_first(), p, c);
        lemma_appends_to_concat(body_ops(p0, b.body), blocks_ops(v2, blocks.drop_first()), p);
        assert(appends_to(blocks_ops(v, blocks), p) =~= Seq::<char>::empty());
    }
}

/// Everything appended to the i-th block's file, over the whole reply,
/// is exactly that block's body text.
proof fn lemma_blocks_ops_content(v: FileIOView, blocks: Seq<FenceBlock>, i: int)
    requires
        0 <= i < blocks.len(),
    ensures
        appends_to(blocks_ops(v, blocks), block_paths(v, blocks)[i]) == body_text(
            blocks[i].body,
        ),
    decreases blocks.len(),
{
    let b = blocks[0];
    let p0 = spec_open_path(v, b.open_line);
    let v2 = block_step(v, b);
    let rest_ops = blocks_ops(v2, blocks.drop_first());
    lemma_appends_to_concat(body_ops(p0, b.body), rest_ops, block_paths(v, blocks)[i]);
    if i == 0 {
        assert(block_paths(v, blocks)[0] == p0);
        lemma_appends_to_body_ops(p0, p0, b.body);
        assert(is_path_with_counter(p0, v.blocks_opened)) by {
            assert(p0 == spec_target_path(
                v.blocks_opened,
                v.file_name,
                spec_extension_for(crate::file_io::spec_tag_of(b.open_line)),
            ));
        }
        lemma_blocks_ops_miss(v2, blocks.drop_first(), p0, v.blocks_opened);
        assert(appends_to(blocks_ops(v, blocks), p0) =~= body_text(b.body));
    } else {
        let target = block_paths(v, blocks)[i];
        lemma_block_paths_shape(v2, blocks.drop_first());
        assert(block_paths(v, blocks) == seq![p0] + block_paths(v2, blocks.drop_first()));
        assert(block_paths(v2, blocks.drop_first()).len() == blocks.len() - 1);
        assert(target == block_paths(v2, blocks.drop_first())[i - 1]);
        lemma_blocks_ops_content(v2, blocks.drop_first(), i - 1);
        assert(is_path_with_counter(target, (v2.blocks_opened + (i - 1)) as nat));
        let (n, e) = choose|n: Seq<char>, e: Seq<char>|
            target == #[trigger] spec_target_path((v2.blocks_opened + (i - 1)) as nat, n, e);
        lemma_target_paths_distinct(
            (v2.blocks_opened + (i - 1)) as nat,
            n,
            e,
            v.blocks_opened,
            v.file_name,
            spec_extension_for(crate::file_io::spec_tag_of(b.open_line)),
        );
        assert(target != p0);
        lemma_appends_to_body_ops(target, p0, b.body);
        assert(appends_to(blocks_ops(v, blocks), target) =~= body_text(blocks[i].body));
    }
}

/// Scanning prose while no fence is active changes nothing and writes
/// nothing.
proof fn lemma_prose_seg(v: FileIOView, lines: Seq<Seq<char>>, k: int, e: int)
    requires
        v.active is None,
        0 <= k <= e <= lines.len(),
        forall|t: int| k <= t < e ==> !has_marker(#[trigger] lines[t]),
    ensures
        spec_process_from(v, lines, k) == spec_process_from(v, lines, e),
    decreases e - k,
{
    if k < e {
        let line = lines[k];
        assert(spec_check_step(v, line) == v);
        assert(spec_line_ops(v, line, k == lines.len() - 1) =~= Seq::<FileOpView>::empty());
        lemma_prose_seg(v, lines, k + 1, e);
        let r = spec_process_from(v, lines, k + 1);
        assert(spec_process_from(v, lines, k).1 =~= r.1);
    }
}

/// Scanning body lines inside an active fence appends each line, with
/// its newline, to the block's file, and changes no state.
proof fn lemma_body_seg(v: FileIOView, path: Seq<char>, lines: Seq<Seq<char>>, k: int, e: int)
    requires
        v.active == Some(path),
        0 <= k <= e < lines.len(),
        forall|t: int| k <= t < e ==> !has_marker(#[trigger] lines[t]),
    ensures
        spec_process_from(v, lines, k).0 == spec_process_from(v, lines, e).0,
        spec_process_from(v, lines, k).1 == body_ops(path, lines.subrange(k, e))
            + spec_process_from(v, lines, e).1,
    decreases e - k,
{
    if k == e {
        assert(lines.subrange(k, e) =~= Seq::<Seq<char>>::empty());
        assert(body_ops(path, lines.subrange(k, e)) =~= Seq::<FileOpView>::empty());
        assert(body_ops(path, lines.subrange(k, e)) + spec_process_from(v, lines, e).1
            =~= spec_process_from(v, lines, e).1);
    } else {
        let line = lines[k];
        assert(spec_check_step(v, line) == v);
        assert(k < lines.len() - 1);
        let op = FileOpView::Append { path: path, text: line + seq!['\n'] };
        assert(spec_line_ops(v, line, k == lines.len() - 1) =~= seq![op]);
        lemma_body_seg(v, path, lines, k + 1, e);
        let r = spec_process_from(v, lines, e);
        assert(spec_process_from(v, lines, k + 1).1 == body_ops(path, lines.subrange(k + 1, e))
            + r.1);
        assert(body_ops(path, lines.subrange(k, e)) =~= seq![op] + body_ops(
            path,
            lines.subrange(k + 1, e),
        )) by {
            assert(lines.subrange(k, e)[0] == line);
            assert(forall|q: int|
                0 <= q < e - k - 1 ==> lines.subrange(k + 1, e)[q] == #[trigger] lines.subrange(
                    k,
                    e,
                )[q + 1]);
        }
        assert(spec_process_from(v, lines, k).1 =~= body_ops(path, lines.subrange(k, e)) + r.1);
    }
}

/// The next block's target is not in the registry yet.
proof fn lemma_fresh_path(v: FileIOView, line: Seq<char>)
    requires
        files_bounded(v),
    ensures
        !v.files.contains(spec_open_path(v, line)),
{
    let p = spec_open_path(v, line);
    if v.files.contains(p) {
        let i = choose|i: int| 0 <= i < v.files.len() && v.files[i] == p;
        let (c, n, e) = choose|c: nat, n: Seq<char>, e: Seq<char>|
            c < v.blocks_opened && v.files[i] == spec_target_path(c, n, e);
        lemma_target_paths_distinct(
            c,
            n,
            e,
            v.blocks_opened,
            v.file_name,
            spec_extension_for(crate::file_io::spec_tag_of(line)),
        );
    }
}

/// Scanning one whole block opens its file, appends exactly its body
/// lines to it, and closes the fence again.
proof fn lemma_block_seg(v: FileIOView, lines: Seq<Seq<char>>, k: int, b: FenceBlock)
    requires
        v.active is None,
        files_bounded(v),
        block_wf(b),
        0 <= k,
        k + block_lines(b).len() <= lines.len(),
        lines.subrange(k, k + block_lines(b).len()) == block_lines(b),
    ensures
        !v.files.contains(spec_open_path(v, b.open_line)),
        files_bounded(block_step(v, b)),
        spec_process_from(v, lines, k).0 == spec_process_from(
            block_step(v, b),
            lines,
            k + block_lines(b).len(),
        ).0,
        spec_process_from(v, lines, k).1 == body_ops(spec_open_path(v, b.open_line), b.body)
            + spec_process_from(block_step(v, b), lines, k + block_lines(b).len()).1,
{
    let a = b.prose.len() as int;
    let m = b.body.len() as int;
    let bl = block_lines(b);
    let ll = bl.len() as int;
    assert(ll == a + m + 2);
    assert forall|t: int| k <= t < k + a implies !has_marker(#[trigger] lines[t]) by {
        assert(lines.subrange(k, k + ll)[t - k] == lines[t]);
        assert(bl[t - k] == b.prose[t - k]);
    }
    // prose before the block
    lemma_prose_seg(v, lines, k, k + a);
    // the opening marker line
    let open_idx = k + a;
    assert(lines.subrange(k, k + ll)[a] == lines[k + a]);
    assert(bl[a] == b.open_line);
    assert(lines[open_idx] == b.open_line);
    let p = spec_open_path(v, b.open_line);
    lemma_fresh_path(v, b.open_line);
    let v1 = spec_check_step(v, b.open_line);
    assert(v1 == FileIOView {
        active: Some(p),
        files: v.files.push(p),
        file_name: v.file_name,
        blocks_opened: v.blocks_opened + 1,
    });
    assert(spec_line_ops(v, b.open_line, open_idx == lines.len() - 1) =~= Seq::<
        FileOpView,
    >::empty());
    // the body
    let body_lo = open_idx + 1;
    let body_hi = body_lo + m;
    assert forall|t: int| body_lo <= t < body_hi implies !has_marker(#[trigger] lines[t]) by {
        assert(lines.subrange(k, k + ll)[t - k] == lines[t]);
        assert(bl[t - k] == b.body[t - k - a - 1]);
    }
    assert(body_hi < lines.len());
    lemma_body_seg(v1, p, lines, body_lo, body_hi);
    assert(lines.subrange(body_lo, body_hi) =~= b.body) by {
        assert forall|q: int|
            0 <= q < m implies lines.subrange(body_lo, body_hi)[q] == #[trigger] b.body[q] by {
            assert(lines.subrange(body_lo, body_hi)[q] == lines[body_lo + q]);
            assert(lines.subrange(k, k + ll)[a + 1 + q] == lines[k + a + 1 + q]);
            assert(bl[a + 1 + q] == b.body[q]);
        }
    }
    // the closing marker line
    let close_idx = body_hi;
    assert(lines.subrange(k, k + ll)[a + 1 + m] == lines[k + a + 1 + m]);
    assert(bl[a + 1 + m] == b.close_line);
    assert(lines[close_idx] == b.close_line);
    let v2 = spec_check_step(v1, b.close_line);
    assert(v2 == block_step(v, b));
    assert(spec_line_ops(v1, b.close_line, close_idx == lines.len() - 1) =~= Seq::<
        FileOpView,
    >::empty());
    // chain the four segments
    let r_end = spec_process_from(v2, lines, close_idx + 1);
    assert(spec_process_from(v1, lines, close_idx).1 =~= r_end.1);
    assert(spec_process_from(v1, lines, body_lo).1 == body_ops(p, b.body) + r_end.1);
    assert(spec_process_from(v, lines, open_idx).0 == spec_process_from(v1, lines, body_lo).0);
    assert(spec_process_from(v, lines, open_idx).1 =~= body_ops(p, b.body) + r_end.1);
    assert(spec_process_from(v, lines, k).1 =~= body_ops(p, b.body) + r_end.1);
    // freshness carries over to the next block
    assert(files_bounded(v2)) by {
        assert forall|i: int| 0 <= i < v2.files.len() implies exists|c: nat, n: Seq<char>, e: Seq<char>|
            c < v2.blocks_opened && #[trigger] v2.files[i] == spec_target_path(c, n, e) by {
            if i < v.files.len() {
                let (c, n, e) = choose|c: nat, n: Seq<char>, e: Seq<char>|
                    c < v.blocks_opened && v.files[i] == spec_target_path(c, n, e);
                assert(v2.files[i] == spec_target_path(c, n, e) && c < v2.blocks_opened);
            } else {
                assert(v2.files[i] == spec_target_path(
                    v.blocks_opened,
                    v.file_name,
                    spec_extension_for(crate::file_io::spec_tag_of(b.open_line)),
                ) && v.blocks_opened < v2.blocks_opened);
            }
        }
    }
}

proof fn lemma_blocks_from(
    v: FileIOView,
    lines: Seq<Seq<char>>,
    k: int,
    blocks: Seq<FenceBlock>,
    trailing: Seq<Seq<char>>,
)
    requires
        v.active is None,
        files_bounded(v),
        blocks_wf(blocks),
        prose_only(trailing),
        0 <= k <= lines.len(),
        lines.skip(k) == all_lines(blocks, trailing),
    ensures
        spec_process_from(v, lines, k).0 == spec_after_blocks(v, blocks),
        spec_process_from(v, lines, k).1 == blocks_ops(v, blocks),
    decreases blocks.len(),
{
    if blocks.len() == 0 {
        assert forall|t: int| k <= t < lines.len() implies !has_marker(#[trigger] lines[t]) by {
            assert(lines[t] == lines.skip(k)[t - k]);
            assert(trailing[t - k] == lines.skip(k)[t - k]);
        }
        lemma_prose_seg(v, lines, k, lines.len() as int);
        assert(spec_process_from(v, lines, lines.len() as int).1 =~= Seq::<FileOpView>::empty());
    } else {
        let b = blocks[0];
        let bl = block_lines(b);
        let ll = bl.len() as int;
        let rest_lines = all_lines(blocks.drop_first(), trailing);
        assert(lines.skip(k) == bl + rest_lines);
        assert(k + ll <= lines.len());
        assert(lines.subrange(k, k + ll) =~= bl) by {
            assert forall|t: int|
                0 <= t < ll implies lines.subrange(k, k + ll)[t] == bl[t] by {
                assert(lines.subrange(k, k + ll)[t] == lines[k + t]);
                assert(lines.skip(k)[t] == lines[k + t]);
                assert((bl + rest_lines)[t] == bl[t]);
            }
        }
        lemma_block_seg(v, lines, k, b);
        let v2 = block_step(v, b);
        assert(lines.skip(k + ll) =~= rest_lines) by {
            assert forall|t: int|
                0 <= t < rest_lines.len() implies lines.skip(k + ll)[t] == rest_lines[t] by {
                assert(lines.skip(k + ll)[t] == lines[k + ll + t]);
                assert(lines.skip(k)[ll + t] == lines[k + ll + t]);
                assert((bl + rest_lines)[ll + t] == rest_lines[t]);
            }
        }
        lemma_blocks_from(v2, lines, k + ll, blocks.drop_first(), trailing);
        assert(spec_process_from(v, lines, k).1 =~= body_ops(spec_open_path(v, b.open_line), b.body)
            + blocks_ops(v2, blocks.drop_first()));
    }
}

/// Shape of the paths the blocks create: the i-th block's file carries
/// the i-th successive counter value, so all of them are fresh and
/// pairwise distinct.
proof fn lemma_block_paths_shape(v: FileIOView, blocks: Seq<FenceBlock>)
    ensures
        block_paths(v, blocks).len() == blocks.len(),
        forall|i: int| 0 <= i < blocks.len() ==> is_path_with_counter(
            #[trigger] block_paths(v, blocks)[i],
            (v.blocks_opened + i) as nat,
        ),
        spec_after_blocks(v, blocks).active == (if blocks.len() == 0 {
            v.active
        } else {
            None::<Seq<char>>
        }),
        spec_after_blocks(v, blocks).file_name == v.file_name,
        spec_after_blocks(v, blocks).blocks_opened == v.blocks_opened + blocks.len(),
        spec_after_blocks(v, blocks).files == v.files + block_paths(v, blocks),
    decreases blocks.len(),
{
    if blocks.len() == 0 {
        assert(v.files + block_paths(v, blocks) =~= v.files);
    } else {
        let b = blocks[0];
        let v2 = block_step(v, b);
        let p = spec_open_path(v, b.open_line);
        lemma_block_paths_shape(v2, blocks.drop_first());
        assert forall|i: int| 0 <= i < blocks.len() implies is_path_with_counter(
            #[trigger] block_paths(v, blocks)[i],
            (v.blocks_opened + i) as nat,
        ) by {
            if i == 0 {
                assert(block_paths(v, blocks)[0] == spec_target_path(
                    v.blocks_opened,
                    v.file_name,
                    spec_extension_for(crate::file_io::spec_tag_of(b.open_line)),
                ));
            } else {
                assert(block_paths(v, blocks)[i] == block_paths(v2, blocks.drop_first())[i - 1]);
                assert(is_path_with_counter(
                    block_paths(v2, blocks.drop_first())[i - 1],
                    (v2.blocks_opened + (i - 1)) as nat,
                ));
                let (n, e) = choose|n: Seq<char>, e: Seq<char>|
                    block_paths(v2, blocks.drop_first())[i - 1] == #[trigger] spec_target_path(
                        (v2.blocks_opened + (i - 1)) as nat,
                        n,
                        e,
                    );
                assert(block_paths(v, blocks)[i] == spec_target_path(
                    (v.blocks_opened + i) as nat,
                    n,
                    e,
                ));
            }
        }
        assert(spec_after_blocks(v, blocks).files =~= v.files + block_paths(v, blocks)) by {
            assert(spec_after_blocks(v2, blocks.drop_first()).files == v2.files + block_paths(
                v2,
                blocks.drop_first(),
            ));
            assert(v2.files == v.files.push(p));
            assert(block_paths(v, blocks) == seq![p] + block_paths(v2, blocks.drop_first()));
        }
    }
}

/// For a reply made of balanced fence pairs amid prose, scanned from an
/// idle worker: exactly one file per pair is created — all targets
/// fresh and pairwise distinct — the fence is closed again afterwards,
/// and the appends are exactly each block's body lines, each ending in
/// its newline, aimed at that block's file, in order. Marker lines and
/// prose persist nothing.
pub proof fn lemma_balanced_extraction(
    v: FileIOView,
    blocks: Seq<FenceBlock>,
    trailing: Seq<Seq<char>>,
)
    requires
        v.active is None,
        files_bounded(v),
        blocks_wf(blocks),
        prose_only(trailing),
    ensures
        spec_process(v, all_lines(blocks, trailing)).0 == spec_after_blocks(v, blocks),
        spec_process(v, all_lines(blocks, trailing)).1 == blocks_ops(v, blocks),
        spec_after_blocks(v, blocks).active is None,
        spec_after_blocks(v, blocks).files == v.files + block_paths(v, blocks),
        spec_after_blocks(v, blocks).files.len() == v.files.len() + blocks.len(),
        block_paths(v, blocks).no_duplicates(),
        forall|i: int| 0 <= i < blocks.len() ==> !v.files.contains(
            #[trigger] block_paths(v, blocks)[i],
        ),
        forall|i: int| 0 <= i < blocks.len() ==> appends_to(
            spec_process(v, all_lines(blocks, trailing)).1,
            #[trigger] block_paths(v, blocks)[i],
        ) == body_text(blocks[i].body),
{
    let lines = all_lines(blocks, trailing);
    assert(lines.skip(0) =~= lines);
    lemma_blocks_from(v, lines, 0, blocks, trailing);
    lemma_block_paths_shape(v, blocks);
    assert forall|i: int| 0 <= i < blocks.len() implies appends_to(
        spec_process(v, lines).1,
        #[trigger] block_paths(v, blocks)[i],
    ) == body_text(blocks[i].body) by {
        lemma_blocks_ops_content(v, blocks, i);
    }
    let paths = block_paths(v, blocks);
    assert forall|i: int, j: int| 0 <= i < j < paths.len() implies paths[i] != paths[j] by {
        assert(is_path_with_counter(paths[i], (v.blocks_opened + i) as nat));
        assert(is_path_with_counter(paths[j], (v.blocks_opened + j) as nat));
        let (n1, e1) = choose|n: Seq<char>, e: Seq<char>|
            paths[i] == #[trigger] spec_target_path((v.blocks_opened + i) as nat, n, e);
        let (n2, e2) = choose|n: Seq<char>, e: Seq<char>|
            paths[j] == #[trigger] spec_target_path((v.blocks_opened + j) as nat, n, e);
        lemma_target_paths_distinct(
            (v.blocks_opened + i) as nat,
            n1,
            e1,
            (v.blocks_opened + j) as nat,
            n2,
            e2,
        );
    }
    assert forall|i: int| 0 <= i < blocks.len() implies !v.files.contains(
        #[trigger] paths[i],
    ) by {
        assert(is_path_with_counter(paths[i], (v.blocks_opened + i) as nat));
        let (n1, e1) = choose|n: Seq<char>, e: Seq<char>|
            paths[i] == #[trigger] spec_target_path((v.blocks_opened + i) as nat, n, e);
        if v.files.contains(paths[i]) {
            let t = choose|t: int| 0 <= t < v.files.len() && v.files[t] == paths[i];
            let (c, n2, e2) = choose|c: nat, n: Seq<char>, e: Seq<char>|
                c < v.blocks_opened && v.files[t] == spec_target_path(c, n, e);
            lemma_target_paths_distinct(c, n2, e2, (v.blocks_opened + i) as nat, n1, e1);
        }
    }
}

/// Removing everything twice in a row is safe: the first removal leaves
/// the registry empty, so the second deletes nothing and changes
/// nothing.
pub proof fn lemma_remove_all_idempotent(
    v: FileIOView,
    m1: FileIOMessageView,
    m2: FileIOMessageView,
)
    requires
        m1.message is Remove,
        m2.message is Remove,
    ensures
        spec_handle(spec_handle(v, m1).0, m2).0 == spec_handle(v, m1).0,
        spec_handle(spec_handle(v, m1).0, m2).1 == Seq::<FileOpView>::empty(),
{
    let v1 = spec_handle(v, m1).0;
    assert(v1.files =~= Seq::<Seq<char>>::empty());
    assert(spec_remove_ops(v1.files) =~= Seq::<FileOpView>::empty());
    assert(spec_handle(v1, m2).0 == v1);
}

} // verus!
