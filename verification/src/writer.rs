//! The write loop: appends one line at a time to the active output file,
//! counts the bytes written since the file was last fresh, and rotates the
//! chain of backups the moment the count meets the size threshold.

use vstd::prelude::*;
use crate::fsmodel::DirModel;
use crate::fsmodel::apply_plan;
use crate::fsmodel::lemma_apply_plan_push;
use crate::fsmodel::lemma_apply_plan_shifts;
use crate::fsmodel::lemma_rotation_bounded;
use crate::fsmodel::only_gens;
use crate::fsmodel::in_chain;
use crate::names::gen_name;
use crate::names::lemma_gen_name_injective;
use crate::plan::SimpleRotate;
use crate::simfs::SimDir;
use crate::simfs::contents_or_empty;

verus! {

/// The byte count to seed the writer with from the size the output file
/// already has on disk. A missing file counts as zero, and so does a size
/// that the tracking integer cannot hold: startup never fails on the
/// seed, at worst one early rotation fires.
pub fn initial_output_file_size(disk_size: Option<u64>) -> (r: usize)
    ensures
        r == (match disk_size {
            Option::Some(l) => if l <= usize::MAX {
                l as usize
            } else {
                0usize
            },
            Option::None => 0usize,
        }),
{
    match disk_size {
        Option::Some(l) => {
            if l <= usize::MAX as u64 {
                l as usize
            } else {
                0
            }
        },
        Option::None => 0,
    }
}

/// The running byte count of the write loop.
pub struct WriterState {
    pub bytes_since_rotation: usize,
}

impl WriterState {
    /// Starts counting from the bytes the output file already holds, so a
    /// restarted process does not reset the rotation trigger.
    pub fn start(initial_size: usize) -> (s: Self)
        ensures
            s.bytes_since_rotation == initial_size,
    {
        WriterState { bytes_since_rotation: initial_size }
    }

    /// Accounts one appended line of `len` bytes. Reports whether the
    /// count has met the threshold — a lower bound, so one oversized line
    /// can pass it — which obliges the caller to rotate now; the count
    /// then restarts at zero.
    pub fn record_line(&mut self, len: usize, max_file_size_bytes: usize) -> (rotate: bool)
        ensures
            rotate == (old(self).bytes_since_rotation + len >= max_file_size_bytes),
            final(self).bytes_since_rotation == (
            if old(self).bytes_since_rotation + len >= max_file_size_bytes {
                0int
            } else {
                old(self).bytes_since_rotation + len
            }),
    {
        if self.bytes_since_rotation >= max_file_size_bytes || len >= max_file_size_bytes
            - self.bytes_since_rotation {
            self.bytes_since_rotation = 0;
            true
        } else {
            self.bytes_since_rotation = self.bytes_since_rotation + len;
            false
        }
    }
}

/// One line through the write loop: the line is appended verbatim to the
/// active file, and where the new running count meets the threshold, the
/// rotation plan is applied and a fresh empty active file takes its
/// place, the count restarting at zero.
pub open spec fn writer_step(sr: SimpleRotate, fs: DirModel, size: nat, line: Seq<u8>) -> (
    DirModel,
    nat,
) {
    let out = sr.output_file_name@;
    let fs1 = fs.insert(out, contents_or_empty(fs, out) + line);
    let size1 = size + line.len();
    if size1 >= sr.max_file_size_bytes {
        (apply_plan(fs1, sr.rotation_info_list@).insert(out, Seq::empty()), 0 as nat)
    } else {
        (fs1, size1)
    }
}

/// The write loop over a whole sequence of lines, first line first.
pub open spec fn writer_run(sr: SimpleRotate, fs: DirModel, size: nat, lines: Seq<Seq<u8>>) -> (
    DirModel,
    nat,
)
    decreases lines.len(),
{
    if lines.len() == 0 {
        (fs, size)
    } else {
        let next = writer_step(sr, fs, size, lines[0]);
        writer_run(sr, next.0, next.1, lines.skip(1))
    }
}

/// Unrolls the write loop at its last line.
pub proof fn lemma_writer_run_push(
    sr: SimpleRotate,
    fs: DirModel,
    size: nat,
    lines: Seq<Seq<u8>>,
    line: Seq<u8>,
)
    ensures
        writer_run(sr, fs, size, lines.push(line)) == writer_step(
            sr,
            writer_run(sr, fs, size, lines).0,
            writer_run(sr, fs, size, lines).1,
            line,
        ),
    decreases lines.len(),
{
    if lines.len() == 0 {
        let next = writer_step(sr, fs, size, line);
        assert(lines.push(line)[0] == line);
        assert(lines.push(line).skip(1) =~= Seq::<Seq<u8>>::empty());
        assert(writer_run(sr, next.0, next.1, lines.push(line).skip(1)) == next);
    } else {
        let next = writer_step(sr, fs, size, lines[0]);
        assert(lines.push(line)[0] == lines[0]);
        assert(lines.push(line).skip(1) =~= lines.skip(1).push(line));
        assert(writer_run(sr, fs, size, lines.push(line)) == writer_run(
            sr,
            next.0,
            next.1,
            lines.skip(1).push(line),
        ));
        assert(writer_run(sr, fs, size, lines) == writer_run(sr, next.0, next.1, lines.skip(1)));
        lemma_writer_run_push(sr, next.0, next.1, lines.skip(1), line);
    }
}

/// The concatenation of a sequence of lines, in order.
pub open spec fn concat_of(lines: Seq<Seq<u8>>) -> Seq<u8>
    decreases lines.len(),
{
    if lines.len() == 0 {
        Seq::empty()
    } else {
        lines[0] + concat_of(lines.skip(1))
    }
}

/// Lines whose total size keeps the running count below the threshold are
/// laid down as exactly their concatenation, in order, and no rotation
/// fires: the count just grows by their total size.
pub proof fn lemma_below_threshold_concatenates(
    sr: SimpleRotate,
    fs: DirModel,
    size: nat,
    lines: Seq<Seq<u8>>,
)
    requires
        size + concat_of(lines).len() < sr.max_file_size_bytes,
    ensures
        lines.len() > 0 ==> writer_run(sr, fs, size, lines).0 == fs.insert(
            sr.output_file_name@,
            contents_or_empty(fs, sr.output_file_name@) + concat_of(lines),
        ),
        lines.len() == 0 ==> writer_run(sr, fs, size, lines).0 == fs,
        writer_run(sr, fs, size, lines).1 == size + concat_of(lines).len(),
    decreases lines.len(),
{
    let out = sr.output_file_name@;
    let c = contents_or_empty(fs, out);
    if lines.len() > 0 {
        let l0 = lines[0];
        assert(concat_of(lines) == l0 + concat_of(lines.skip(1)));
        let fs1 = fs.insert(out, c + l0);
        assert(size + l0.len() < sr.max_file_size_bytes);
        assert(writer_step(sr, fs, size, l0) == (fs1, (size + l0.len()) as nat));
        lemma_below_threshold_concatenates(sr, fs1, (size + l0.len()) as nat, lines.skip(1));
        if lines.skip(1).len() == 0 {
            assert(concat_of(lines.skip(1)) =~= Seq::<u8>::empty());
            assert(c + concat_of(lines) =~= c + l0);
        } else {
            assert(contents_or_empty(fs1, out) == c + l0);
            assert((c + l0) + concat_of(lines.skip(1)) =~= c + concat_of(lines));
            assert(fs1.insert(out, (c + l0) + concat_of(lines.skip(1))) =~= fs.insert(
                out,
                c + concat_of(lines),
            ));
        }
    }
}

/// The threshold is a lower bound, checked after the write: the step that
/// meets it has already appended its whole line — an oversized line is
/// written completely — and only then rotates, leaving a fresh empty
/// active file and a count of zero.
pub proof fn lemma_threshold_rotates(sr: SimpleRotate, fs: DirModel, size: nat, line: Seq<u8>)
    requires
        size + line.len() >= sr.max_file_size_bytes,
    ensures
        writer_step(sr, fs, size, line).1 == 0,
        writer_step(sr, fs, size, line).0 == apply_plan(
            fs.insert(
                sr.output_file_name@,
                contents_or_empty(fs, sr.output_file_name@) + line,
            ),
            sr.rotation_info_list@,
        ).insert(sr.output_file_name@, Seq::<u8>::empty()),
{
}

/// With at most one retained generation the plan is empty, so a rotation
/// degenerates to truncation: the active file comes out empty and no
/// other file is touched.
pub proof fn lemma_single_generation_truncates(
    sr: SimpleRotate,
    fs: DirModel,
    size: nat,
    line: Seq<u8>,
)
    requires
        sr.wf(),
        sr.max_output_files <= 1,
        size + line.len() >= sr.max_file_size_bytes,
    ensures
        writer_step(sr, fs, size, line).0 == fs.insert(sr.output_file_name@, Seq::<u8>::empty()),
        writer_step(sr, fs, size, line).1 == 0,
{
    let out = sr.output_file_name@;
    let fs1 = fs.insert(out, contents_or_empty(fs, out) + line);
    assert(sr.rotation_info_list@.len() == 0);
    assert(apply_plan(fs1, sr.rotation_info_list@) == fs1);
    assert(fs1.insert(out, Seq::<u8>::empty()) =~= fs.insert(out, Seq::<u8>::empty()));
}

/// The line that trips the threshold is not lost: after the rotation it
/// sits, together with everything written before it, in the first backup,
/// while the active file is empty again.
pub proof fn lemma_rotated_line_preserved(sr: SimpleRotate, fs: DirModel, size: nat, line: Seq<u8>)
    requires
        sr.wf(),
        sr.max_output_files >= 2,
        size + line.len() >= sr.max_file_size_bytes,
    ensures
        ({
            let out = sr.output_file_name@;
            let r = writer_step(sr, fs, size, line).0;
            &&& r.dom().contains(gen_name(out, 1))
            &&& r[gen_name(out, 1)] == contents_or_empty(fs, out) + line
            &&& r.dom().contains(out)
            &&& r[out] == Seq::<u8>::empty()
        }),
{
    let out = sr.output_file_name@;
    let n = sr.max_output_files as nat;
    let fs1 = fs.insert(out, contents_or_empty(fs, out) + line);
    lemma_apply_plan_shifts(fs1, sr.rotation_info_list@, out, n);
    let rotated = apply_plan(fs1, sr.rotation_info_list@);
    assert(fs1.dom().contains(gen_name(out, 0)));
    assert(rotated[gen_name(out, 1)] == fs1[gen_name(out, 0)]);
    lemma_gen_name_injective(out, 0, 1);
    assert(writer_step(sr, fs, size, line).0 == rotated.insert(out, Seq::<u8>::empty()));
}

/// After a whole rotation event — the plan applied and a fresh empty
/// active file opened — a directory that held at most the configured `n`
/// generations still does: the active file plus at most `n - 1` numbered
/// backups, and nothing one slot past the last retained one.
pub proof fn lemma_rotation_event_bounded(sr: SimpleRotate, fs: DirModel, size: nat, line: Seq<u8>)
    requires
        sr.wf(),
        sr.max_output_files >= 2,
        only_gens(fs, sr.output_file_name@, sr.max_output_files as nat),
        size + line.len() >= sr.max_file_size_bytes,
    ensures
        only_gens(
            writer_step(sr, fs, size, line).0,
            sr.output_file_name@,
            sr.max_output_files as nat,
        ),
{
    let out = sr.output_file_name@;
    let n = sr.max_output_files as nat;
    let fs1 = fs.insert(out, contents_or_empty(fs, out) + line);
    assert(gen_name(out, ((0int) as nat)) == out);
    assert forall|name: Seq<char>| fs1.dom().contains(name) implies #[trigger] in_chain(
        name,
        out,
        n,
    ) by {
        if name == out {
            assert(name == gen_name(out, ((0int) as nat)));
        } else {
            assert(fs.dom().contains(name));
        }
    }
    lemma_rotation_bounded(fs1, sr.rotation_info_list@, out, n);
    let rotated = apply_plan(fs1, sr.rotation_info_list@);
    assert forall|name: Seq<char>|
        rotated.insert(out, Seq::<u8>::empty()).dom().contains(name) implies #[trigger] in_chain(
        name,
        out,
        n,
    ) by {
        if name == out {
            assert(name == gen_name(out, ((0int) as nat)));
        } else {
            assert(rotated.dom().contains(name));
        }
    }
}

/// Restart resumption: against an output that already holds `size` bytes,
/// supplying non-empty lines that together reach the threshold exactly
/// triggers exactly one rotation, on the last line — the run ends in the
/// single rotated state, with the count reset to zero.
pub proof fn lemma_restart_triggers_one_rotation(
    sr: SimpleRotate,
    fs: DirModel,
    size: nat,
    lines: Seq<Seq<u8>>,
)
    requires
        lines.len() >= 1,
        forall|i: int| 0 <= i < lines.len() ==> (#[trigger] lines[i]).len() >= 1,
        size + concat_of(lines).len() == sr.max_file_size_bytes,
    ensures
        writer_run(sr, fs, size, lines).0 == apply_plan(
            fs.insert(
                sr.output_file_name@,
                contents_or_empty(fs, sr.output_file_name@) + concat_of(lines),
            ),
            sr.rotation_info_list@,
        ).insert(sr.output_file_name@, Seq::<u8>::empty()),
        writer_run(sr, fs, size, lines).1 == 0,
    decreases lines.len(),
{
    let out = sr.output_file_name@;
    let c = contents_or_empty(fs, out);
    let l0 = lines[0];
    assert(concat_of(lines) == l0 + concat_of(lines.skip(1)));
    if lines.len() == 1 {
        assert(concat_of(lines.skip(1)) =~= Seq::<u8>::empty());
        assert(c + concat_of(lines) =~= c + l0);
        assert(size + l0.len() >= sr.max_file_size_bytes);
        assert(writer_run(sr, fs, size, lines) == writer_run(
            sr,
            writer_step(sr, fs, size, l0).0,
            writer_step(sr, fs, size, l0).1,
            lines.skip(1),
        ));
    } else {
        assert(lines.skip(1)[0] == lines[1]);
        assert(concat_of(lines.skip(1)).len() >= lines.skip(1)[0].len());
        assert(size + l0.len() < sr.max_file_size_bytes);
        let fs1 = fs.insert(out, c + l0);
        assert(writer_step(sr, fs, size, l0) == (fs1, (size + l0.len()) as nat));
        assert(forall|i: int|
            0 <= i < lines.skip(1).len() ==> (#[trigger] lines.skip(1)[i]).len() >= 1);
        lemma_restart_triggers_one_rotation(
            sr,
            fs1,
            (size + l0.len()) as nat,
            lines.skip(1),
        );
        assert(contents_or_empty(fs1, out) == c + l0);
        assert((c + l0) + concat_of(lines.skip(1)) =~= c + concat_of(lines));
        assert(fs1.insert(out, (c + l0) + concat_of(lines.skip(1))) =~= fs.insert(
            out,
            c + concat_of(lines),
        ));
    }
}

impl SimpleRotate {
    /// Applies the rotation plan to a directory, step by step in the
    /// plan's order; a failed rename of a missing source is tolerated and
    /// the remaining steps still run.
    pub fn rotate_sim(&self, dir: &mut SimDir)
        requires
            old(dir).wf(),
        ensures
            final(dir).wf(),
            final(dir)@ == apply_plan(old(dir)@, self.rotation_info_list@),
    {
        let ghost d0 = dir@;
        let mut idx: usize = 0;
        while idx < self.rotation_info_list.len()
            invariant
                dir.wf(),
                idx <= self.rotation_info_list@.len(),
                dir@ == apply_plan(d0, self.rotation_info_list@.take(idx as int)),
            decreases self.rotation_info_list@.len() - idx,
        {
            let step = &self.rotation_info_list[idx];
            dir.rename(&step.from_filename, &step.to_filename);
            proof {
                assert(self.rotation_info_list@.take(idx + 1int)
                    =~= self.rotation_info_list@.take(idx as int).push(
                    self.rotation_info_list@[idx as int],
                ));
                lemma_apply_plan_push(
                    d0,
                    self.rotation_info_list@.take(idx as int),
                    self.rotation_info_list@[idx as int],
                );
            }
            idx = idx + 1;
        }
        proof {
            assert(self.rotation_info_list@.take(self.rotation_info_list@.len() as int)
                =~= self.rotation_info_list@);
        }
    }

    /// Runs the whole write loop against a directory model: the output
    /// file is opened for append (created where missing), the byte count
    /// is seeded from its existing contents, and each line is appended in
    /// turn, rotating whenever the running count meets the threshold.
    pub fn run_sim(&self, dir: &mut SimDir, lines: &Vec<Vec<u8>>)
        requires
            old(dir).wf(),
        ensures
            final(dir).wf(),
            final(dir)@ == writer_run(
                *self,
                old(dir)@.insert(
                    self.output_file_name@,
                    contents_or_empty(old(dir)@, self.output_file_name@),
                ),
                contents_or_empty(old(dir)@, self.output_file_name@).len(),
                lines.deep_view(),
            ).0,
    {
        let ghost init = old(dir)@.insert(
            self.output_file_name@,
            contents_or_empty(old(dir)@, self.output_file_name@),
        );
        let empty_line: Vec<u8> = Vec::new();
        dir.append(&self.output_file_name, &empty_line);
        proof {
            assert(contents_or_empty(old(dir)@, self.output_file_name@) + empty_line@
                =~= contents_or_empty(old(dir)@, self.output_file_name@));
        }
        let size0: usize = match dir.read(&self.output_file_name) {
            Option::Some(v) => v.len(),
            Option::None => 0,
        };
        let mut state = WriterState::start(size0);
        let ghost sz0 = state.bytes_since_rotation as nat;
        let mut i: usize = 0;
        while i < lines.len()
            invariant
                dir.wf(),
                i <= lines@.len(),
                dir@ == writer_run(*self, init, sz0, lines.deep_view().take(i as int)).0,
                state.bytes_since_rotation as nat == writer_run(
                    *self,
                    init,
                    sz0,
                    lines.deep_view().take(i as int),
                ).1,
            decreases lines@.len() - i,
        {
            let ghost before = writer_run(*self, init, sz0, lines.deep_view().take(i as int));
            let line = &lines[i];
            dir.append(&self.output_file_name, line);
            let rotate = state.record_line(line.len(), self.max_file_size_bytes);
            if rotate {
                self.rotate_sim(dir);
                let fresh: Vec<u8> = Vec::new();
                dir.write(&self.output_file_name, fresh);
            }
            proof {
                assert(lines.deep_view()[i as int] == lines@[i as int]@);
                assert(lines.deep_view().take(i + 1int) =~= lines.deep_view().take(
                    i as int,
                ).push(lines@[i as int]@));
                lemma_writer_run_push(
                    *self,
                    init,
                    sz0,
                    lines.deep_view().take(i as int),
                    lines@[i as int]@,
                );
            }
            i = i + 1;
        }
        proof {
            assert(lines.deep_view().take(lines@.len() as int) =~= lines.deep_view());
        }
    }
}

} // verus!
