//! The sort engine.
//!
//! [`FileSorter::split_files`] partitions the input lines into bounded
//! chunks and sorts each chunk's whitespace tokens; [`FileSorter::merge_files`]
//! runs the merge schedule over the chunk contents until a single sorted file
//! remains; [`FileSorter::sort_file`] ties the two together, falling back to
//! sorting directly when the input is too small to need any merge.
//!
//! Everything here works on plain line values; opening, reading, writing,
//! renaming and deleting the underlying files is the caller's business.

use vstd::prelude::*;
use vstd::multiset::Multiset;
use vstd::string::StringExecFns;
use crate::naming::{spec_file_name, ChunkId};
use crate::order::lines_sorted;
use crate::scheduler::{final_level, full_schedule, MergeIterator};
use crate::sorting::{clone_chunk, merge_sorted, sort_content, tokens_of, views_of};

verus! {

broadcast use vstd::seq_lib::group_to_multiset_ensures, vstd::multiset::group_multiset_axioms;

/// The chunk files' contents, each file as the views of its lines.
pub open spec fn files_view(s: Seq<Vec<String>>) -> Seq<Seq<Seq<char>>> {
    Seq::new(s.len(), |i: int| views_of(s[i]@))
}

/// Every file's lines are in ascending order.
pub open spec fn all_sorted(files: Seq<Seq<Seq<char>>>) -> bool {
    forall|i: int| 0 <= i < files.len() ==> lines_sorted(#[trigger] files[i])
}

/// All lines of all files, as one multiset.
pub open spec fn ms_of(files: Seq<Seq<Seq<char>>>) -> Multiset<Seq<char>>
    decreases files.len(),
{
    if files.len() == 0 {
        Multiset::empty()
    } else {
        files[0].to_multiset().add(ms_of(files.skip(1)))
    }
}

/// The text the lines form on disk: the lines joined by single newlines.
pub open spec fn spec_join(lines: Seq<Seq<char>>) -> Seq<char>
    decreases lines.len(),
{
    if lines.len() == 0 {
        Seq::empty()
    } else if lines.len() == 1 {
        lines[0]
    } else {
        lines[0] + seq!['\n'] + spec_join(lines.skip(1))
    }
}

/// The input lines grouped into chunks of `lpf` lines, the last chunk
/// holding whatever remains; an empty input yields no chunk at all.
pub open spec fn spec_chunks(lines: Seq<Seq<char>>, lpf: int) -> Seq<Seq<Seq<char>>>
    decreases lines.len()
        when lpf >= 1
{
    if lines.len() == 0 {
        Seq::empty()
    } else if lines.len() <= lpf {
        seq![lines]
    } else {
        seq![lines.take(lpf)] + spec_chunks(lines.skip(lpf), lpf)
    }
}

/// The tokens the whole input carries once chunked: each chunk contributes
/// the tokens of its joined text.
pub open spec fn chunk_tokens(lines: Seq<Seq<char>>, lpf: int) -> Multiset<Seq<char>> {
    ms_of(spec_chunks(lines, lpf).map_values(|c: Seq<Seq<char>>| tokens_of(spec_join(c))))
}

proof fn lemma_ms_of_skip(files: Seq<Seq<Seq<char>>>, i: int)
    requires
        0 <= i < files.len(),
    ensures
        ms_of(files.skip(i)) == files[i].to_multiset().add(ms_of(files.skip(i + 1))),
{
    assert(files.skip(i).len() > 0);
    assert(files.skip(i)[0] == files[i]);
    assert(files.skip(i).skip(1) =~= files.skip(i + 1));
}

proof fn lemma_ms_of_push(files: Seq<Seq<Seq<char>>>, x: Seq<Seq<char>>)
    ensures
        ms_of(files.push(x)) == ms_of(files).add(x.to_multiset()),
    decreases files.len(),
{
    if files.len() == 0 {
        assert(files.push(x)[0] == x);
        assert(files.push(x).skip(1) =~= Seq::<Seq<Seq<char>>>::empty());
        assert(ms_of(Seq::<Seq<Seq<char>>>::empty()) == Multiset::<Seq<char>>::empty());
        assert(ms_of(files.push(x)) == x.to_multiset().add(Multiset::<Seq<char>>::empty()));
        assert(ms_of(files.push(x)) =~= ms_of(files).add(x.to_multiset()));
    } else {
        assert(files.push(x).skip(1) =~= files.skip(1).push(x));
        assert(files.push(x)[0] == files[0]);
        lemma_ms_of_push(files.skip(1), x);
        assert(ms_of(files.push(x)) == files[0].to_multiset().add(
            ms_of(files.skip(1)).add(x.to_multiset()),
        ));
        assert(ms_of(files.push(x)) =~= ms_of(files).add(x.to_multiset()));
    }
}

proof fn lemma_ms_of_congruent(a: Seq<Seq<Seq<char>>>, b: Seq<Seq<Seq<char>>>)
    requires
        a.len() == b.len(),
        forall|i: int| 0 <= i < a.len() ==> (#[trigger] a[i]).to_multiset() == b[i].to_multiset(),
    ensures
        ms_of(a) == ms_of(b),
    decreases a.len(),
{
    if a.len() > 0 {
        assert(forall|i: int|
            0 <= i < a.skip(1).len() ==> (#[trigger] a.skip(1)[i]).to_multiset() == b.skip(
                1,
            )[i].to_multiset());
        lemma_ms_of_congruent(a.skip(1), b.skip(1));
    }
}

proof fn lemma_spec_join_push(lines: Seq<Seq<char>>, x: Seq<char>)
    ensures
        spec_join(lines.push(x)) == if lines.len() == 0 {
            x
        } else {
            spec_join(lines) + seq!['\n'] + x
        },
    decreases lines.len(),
{
    if lines.len() == 0 {
        assert(lines.push(x)[0] == x);
    } else if lines.len() == 1 {
        assert(lines.push(x)[0] == lines[0]);
        assert(lines.push(x).skip(1) =~= seq![x]);
        assert(spec_join(seq![x]) == x);
    } else {
        assert(lines.push(x)[0] == lines[0]);
        assert(lines.push(x).skip(1) =~= lines.skip(1).push(x));
        lemma_spec_join_push(lines.skip(1), x);
    }
}

/// Join lines with single newlines, with no trailing newline.
pub fn join_lines(lines: &Vec<String>) -> (r: String)
    ensures
        r@ == spec_join(views_of(lines@)),
{
    let mut s = String::new();
    let mut k: usize = 0;
    proof {
        assert(views_of(lines@).take(0) =~= Seq::<Seq<char>>::empty());
    }
    while k < lines.len()
        invariant
            k <= lines@.len(),
            s@ == spec_join(views_of(lines@).take(k as int)),
        decreases lines@.len() - k,
    {
        if k > 0 {
            s.append("\n");
        }
        s.append(lines[k].as_str());
        proof {
            reveal_strlit("\n");
            let w = views_of(lines@);
            lemma_spec_join_push(w.take(k as int), w[k as int]);
            assert(w.take(k + 1) =~= w.take(k as int).push(w[k as int]));
        }
        k += 1;
    }
    proof {
        assert(views_of(lines@).take(lines@.len() as int) =~= views_of(lines@));
    }
    s
}

/// What the command line supplies: the paths of the file to sort and of the
/// file to write.
pub struct ProgramArguments {
    pub input: String,
    pub output: String,
}

impl Default for ProgramArguments {
    fn default() -> (r: Self)
        ensures
            r.input@ == Seq::<char>::empty(),
            r.output@ == Seq::<char>::empty(),
    {
        ProgramArguments { input: String::new(), output: String::new() }
    }
}

/// The orchestrator of one sort invocation.
pub struct FileSorter {
    pub input: String,
    pub output: String,
    pub lines_per_file: usize,
}

impl Default for FileSorter {
    fn default() -> (r: Self)
        ensures
            r.input@ == Seq::<char>::empty(),
            r.output@ == Seq::<char>::empty(),
            r.lines_per_file == 10,
    {
        FileSorter { input: String::new(), output: String::new(), lines_per_file: 10 }
    }
}

impl FileSorter {
    pub fn new(program_args: &ProgramArguments, lines_per_file: Option<usize>) -> (r: Self)
        ensures
            r.input@ == program_args.input@,
            r.output@ == program_args.output@,
            r.lines_per_file == match lines_per_file {
                Option::Some(l) => l,
                Option::None => 10,
            },
    {
        FileSorter {
            input: program_args.input.clone(),
            output: program_args.output.clone(),
            lines_per_file: match lines_per_file {
                Some(l) => l,
                None => 10,
            },
        }
    }

    /// The on-disk name of the chunk `(file_level, curr_idx)`.
    pub fn get_sub_file_name(file_level: usize, curr_idx: usize) -> (r: String)
        ensures
            r@ == spec_file_name(file_level as nat, curr_idx as nat),
    {
        let id = ChunkId { level: file_level, index: curr_idx };
        id.file_name()
    }

    /// Partition the input lines into level-0 chunks of at most
    /// `lines_per_file` lines each, in input order, and sort each chunk:
    /// a chunk's content becomes its whitespace tokens in ascending order.
    /// Returns `(level 0, chunk count)` and the chunk contents; an empty
    /// input produces no chunk.
    pub fn split_files(&self, lines: &Vec<String>) -> (r: ((usize, usize), Vec<Vec<String>>))
        requires
            self.lines_per_file >= 1,
        ensures
            r.0.0 == 0,
            r.0.1 == r.1@.len(),
            r.1@.len() == spec_chunks(views_of(lines@), self.lines_per_file as int).len(),
            forall|i: int| 0 <= i < r.1@.len() ==> lines_sorted(#[trigger] files_view(r.1@)[i]),
            forall|i: int|
                0 <= i < r.1@.len() ==> (#[trigger] files_view(r.1@)[i]).to_multiset() == tokens_of(
                    spec_join(spec_chunks(views_of(lines@), self.lines_per_file as int)[i]),
                ).to_multiset(),
    {
        let whole = Ghost(views_of(lines@));
        let lpf = self.lines_per_file;
        let mut chunks: Vec<Vec<String>> = Vec::new();
        let mut start: usize = 0;
        proof {
            assert(whole@.skip(0) =~= whole@);
            assert(spec_chunks(whole@, lpf as int).skip(0) =~= spec_chunks(whole@, lpf as int));
        }
        while start < lines.len()
            invariant
                lpf == self.lines_per_file,
                lpf >= 1,
                start <= lines@.len(),
                whole@ == views_of(lines@),
                spec_chunks(whole@, lpf as int).len() == chunks@.len() + spec_chunks(
                    whole@.skip(start as int),
                    lpf as int,
                ).len(),
                spec_chunks(whole@, lpf as int).skip(chunks@.len() as int) == spec_chunks(
                    whole@.skip(start as int),
                    lpf as int,
                ),
                start < lines@.len() || chunks@.len() == spec_chunks(whole@, lpf as int).len(),
                forall|i: int|
                    0 <= i < chunks@.len() ==> lines_sorted(#[trigger] files_view(chunks@)[i]),
                forall|i: int|
                    0 <= i < chunks@.len() ==> (#[trigger] files_view(chunks@)[i]).to_multiset()
                        == tokens_of(
                        spec_join(spec_chunks(whole@, lpf as int)[i]),
                    ).to_multiset(),
            decreases lines@.len() - start,
        {
            let ghost start0 = start as int;
            let remaining = lines.len() - start;
            let size = if remaining > lpf {
                lpf
            } else {
                remaining
            };
            let mut chunk_lines: Vec<String> = Vec::new();
            let mut k: usize = 0;
            proof {
                assert(views_of(chunk_lines@) =~= views_of(lines@).subrange(start0, start0));
            }
            while k < size
                invariant
                    k <= size,
                    start0 == start as int,
                    start + size <= lines@.len(),
                    lines@.len() <= usize::MAX,
                    chunk_lines@.len() == k,
                    views_of(chunk_lines@) == views_of(lines@).subrange(start0, start0 + k),
                decreases size - k,
            {
                let ghost pre = chunk_lines@;
                chunk_lines.push(lines[start + k].clone());
                proof {
                    let w = views_of(lines@);
                    let cur = views_of(chunk_lines@);
                    assert(chunk_lines@ == pre.push(lines@[start0 + k]));
                    assert forall|i: int| 0 <= i < k + 1 implies cur[i] == w.subrange(
                        start0,
                        start0 + k + 1,
                    )[i] by {
                        if i < k {
                            assert(chunk_lines@[i] == pre[i]);
                            assert(views_of(pre)[i] == w.subrange(start0, start0 + k)[i]);
                        } else {
                            assert(chunk_lines@[i] == lines@[start0 + k]);
                        }
                    }
                    assert(cur =~= w.subrange(start0, start0 + k + 1));
                }
                k += 1;
            }
            let content = join_lines(&chunk_lines);
            let sorted_chunk = sort_content(content.as_str());
            let ghost pre_chunks = chunks@;
            let ghost rest = whole@.skip(start0);
            chunks.push(sorted_chunk);
            start += size;
            proof {
                let lpi = lpf as int;
                let sc = spec_chunks(whole@, lpi);
                // the lines gathered are the head chunk of the unprocessed rest
                assert(views_of(chunk_lines@) =~= rest.take(size as int)) by {
                    assert(forall|i: int|
                        0 <= i < size ==> rest.take(size as int)[i] == #[trigger] rest[i]);
                    assert(forall|i: int| 0 <= i < size ==> rest[i] == whole@[start0 + i]);
                }
                assert(rest.len() > 0);
                if rest.len() <= lpi {
                    assert(spec_chunks(rest, lpi) == seq![rest]);
                    assert(rest.take(size as int) =~= rest);
                    assert(spec_chunks(rest, lpi)[0] == rest);
                    assert(whole@.skip(start as int).len() == 0);
                    assert(spec_chunks(whole@.skip(start as int), lpi) =~= Seq::<
                        Seq<Seq<char>>,
                    >::empty());
                    assert(spec_chunks(rest, lpi).skip(1) =~= spec_chunks(
                        whole@.skip(start as int),
                        lpi,
                    ));
                } else {
                    assert(size == lpf);
                    assert(spec_chunks(rest, lpi) == seq![rest.take(lpi)] + spec_chunks(
                        rest.skip(lpi),
                        lpi,
                    ));
                    assert(spec_chunks(rest, lpi)[0] == rest.take(lpi));
                    assert(rest.skip(lpi) =~= whole@.skip(start as int));
                    assert(spec_chunks(rest, lpi).skip(1) =~= spec_chunks(
                        whole@.skip(start as int),
                        lpi,
                    ));
                }
                // this chunk sits at position `pre_chunks.len()` of the whole chunking
                assert(sc.skip(pre_chunks.len() as int) == spec_chunks(rest, lpi));
                assert(sc[pre_chunks.len() as int] == spec_chunks(rest, lpi)[0]);
                assert(sc.skip(chunks@.len() as int) =~= spec_chunks(rest, lpi).skip(1));
                assert(content@ == spec_join(sc[pre_chunks.len() as int]));
                // re-establish the per-chunk properties
                assert(files_view(chunks@)[pre_chunks.len() as int] == views_of(sorted_chunk@));
                assert(forall|i: int|
                    0 <= i < pre_chunks.len() ==> #[trigger] files_view(chunks@)[i] == files_view(
                        pre_chunks,
                    )[i]);
                if start as int == lines@.len() {
                    assert(chunks@.len() == sc.len());
                }
            }
        }
        proof {
            assert(whole@.skip(lines@.len() as int) =~= Seq::<Seq<char>>::empty());
            assert(spec_chunks(Seq::<Seq<char>>::empty(), lpf as int) =~= Seq::<
                Seq<Seq<char>>,
            >::empty());
        }
        let n = chunks.len();
        ((0, n), chunks)
    }

    /// Run the merge schedule over `files`, the contents of the chunks at
    /// `file_level`, until a single file survives.  Returns the name of the
    /// last file a task produced — the empty string when fewer than two files
    /// exist, since then no merging happens at all — together with the
    /// surviving content.  The merged content holds exactly the lines of all
    /// the inputs, and is sorted whenever every input is.
    pub fn merge_files(file_level: usize, files: Vec<Vec<String>>) -> (r: (String, Vec<String>))
        requires
            file_level + files@.len() <= usize::MAX,
        ensures
            views_of(r.1@).to_multiset() == ms_of(files_view(files@)),
            all_sorted(files_view(files@)) ==> lines_sorted(views_of(r.1@)),
            files@.len() <= 1 ==> r.0@ == Seq::<char>::empty(),
            files@.len() == 1 ==> views_of(r.1@) == files_view(files@)[0],
            files@.len() > 1 ==> r.0@ == spec_file_name(
                final_level(file_level as int, files@.len() as int) as nat,
                0,
            ),
    {
        let count = files.len();
        let ghost orig = files_view(files@);
        let ghost orig_files = files@;
        let mut sched = MergeIterator::new(file_level, count);
        let mut level_files = files;
        let mut next_files: Vec<Vec<String>> = Vec::new();
        let mut last_name = String::new();
        let ghost mut emitted = Seq::<crate::scheduler::MergeTask>::empty();
        proof {
            assert(files_view(level_files@).skip(0) =~= files_view(level_files@));
            assert(ms_of(files_view(next_files@)) =~= Multiset::<Seq<char>>::empty());
            assert(ms_of(orig).add(Multiset::<Seq<char>>::empty()) =~= ms_of(orig));
        }
        while sched.count > 1
            invariant
                sched.wf(),
                sched.count == level_files@.len(),
                sched.new_file_count == next_files@.len(),
                sched.count <= count,
                count >= 1 ==> sched.count >= 1,
                count <= 1 ==> level_files@ == orig_files,
                count == orig.len(),
                orig == files_view(orig_files),
                file_level as int + count as int <= usize::MAX,
                emitted + sched.remaining() == full_schedule(file_level as int, count as int),
                ms_of(files_view(level_files@).skip(sched.curr_count as int)).add(
                    ms_of(files_view(next_files@)),
                ) == ms_of(orig),
                all_sorted(orig) ==> all_sorted(
                    files_view(level_files@).skip(sched.curr_count as int),
                ) && all_sorted(files_view(next_files@)),
                emitted.len() == 0 ==> last_name@ == Seq::<char>::empty(),
                emitted.len() > 0 ==> last_name@ == spec_file_name(
                    emitted.last().produces.level as nat,
                    emitted.last().produces.index as nat,
                ),
            decreases sched.remaining().len(),
        {
            let ghost pre = sched;
            let task_opt = sched.next();
            if let Some(task) = task_opt {
                let name = FileSorter::get_sub_file_name(task.produces.level, task.produces.index);
                last_name = name;
                let idx1 = task.first.index;
                let ghost a = files_view(level_files@);
                let ghost cc = pre.curr_count as int;
                let merged: Vec<String> = match task.second {
                    Some(_) => merge_sorted(&level_files[idx1], &level_files[idx1 + 1]),
                    None => clone_chunk(&level_files[idx1]),
                };
                proof {
                    lemma_ms_of_skip(a, cc);
                    if task.second is Some {
                        lemma_ms_of_skip(a, cc + 1);
                        assert(views_of(merged@).to_multiset() == a[cc].to_multiset().add(
                            a[cc + 1].to_multiset(),
                        ));
                    } else {
                        assert(views_of(merged@) == a[cc]);
                    }
                }
                let ghost pre_next = next_files@;
                next_files.push(merged);
                proof {
                    assert(files_view(next_files@).drop_last() =~= files_view(pre_next));
                    assert(files_view(next_files@) =~= files_view(pre_next).push(
                        views_of(merged@),
                    ));
                    lemma_ms_of_push(files_view(pre_next), views_of(merged@));
                    let consumed = if task.second is Some {
                        cc + 2
                    } else {
                        cc + 1
                    };
                    assert(ms_of(a.skip(consumed)).add(ms_of(files_view(next_files@))) =~= ms_of(
                        orig,
                    ));
                    if all_sorted(orig) {
                        assert(a.skip(cc)[0] == a[cc]);
                        if task.second is Some {
                            assert(a.skip(cc)[1] == a[cc + 1]);
                            assert(lines_sorted(a[cc]) && lines_sorted(a[cc + 1]));
                        }
                        assert(lines_sorted(views_of(merged@)));
                        assert(all_sorted(files_view(next_files@)));
                        assert(forall|i: int|
                            0 <= i < a.skip(consumed).len() ==> #[trigger] a.skip(consumed)[i]
                                == a.skip(cc)[i + consumed - cc]);
                        assert(all_sorted(a.skip(consumed)));
                    }
                }
                proof {
                    assert(emitted.push(task) + sched.remaining() =~= emitted + (seq![task]
                        + sched.remaining()));
                    assert(seq![task] + sched.remaining() =~= pre.remaining());
                    emitted = emitted.push(task);
                }
                if sched.new_file_count == 0 {
                    // the pass over this level is complete: drain the next level
                    proof {
                        let consumed = if task.second is Some {
                            cc + 2
                        } else {
                            cc + 1
                        };
                        assert(consumed == a.len());
                        assert(a.skip(consumed) =~= Seq::<Seq<Seq<char>>>::empty());
                        assert(ms_of(Seq::<Seq<Seq<char>>>::empty()) == Multiset::<
                            Seq<char>,
                        >::empty());
                        assert(ms_of(files_view(next_files@)) =~= ms_of(orig));
                    }
                    level_files = next_files;
                    next_files = Vec::new();
                    proof {
                        assert(files_view(level_files@).skip(0) =~= files_view(level_files@));
                        assert(ms_of(files_view(next_files@)) =~= Multiset::<Seq<char>>::empty());
                        assert(ms_of(files_view(level_files@)).add(
                            Multiset::<Seq<char>>::empty(),
                        ) =~= ms_of(orig));
                    }
                }
            } else {
                // while more than one file remains the scheduler always
                // yields a task
                proof {
                    assert(false);
                }
            }
        }
        proof {
            assert(sched.remaining() =~= Seq::<crate::scheduler::MergeTask>::empty());
            assert(emitted =~= full_schedule(file_level as int, count as int));
            if count > 1 {
                crate::scheduler::lemma_full_schedule_last(file_level as int, count as int);
                crate::scheduler::lemma_final_level_bound(file_level as int, count as int);
            } else {
                crate::scheduler::lemma_schedule_merge_count(file_level as int, count as int);
            }
            assert(level_files@.len() == sched.count);
            assert(sched.curr_count == 0 && sched.new_file_count == 0);
            assert(files_view(level_files@).skip(0) =~= files_view(level_files@));
            assert(ms_of(files_view(next_files@)) =~= Multiset::<Seq<char>>::empty());
        }
        let ghost flv = files_view(level_files@);
        let result: Vec<String> = if level_files.len() > 0 {
            level_files.remove(0)
        } else {
            Vec::new()
        };
        proof {
            if count >= 1 {
                assert(flv.len() == 1);
                assert(flv[0] == views_of(result@));
                lemma_ms_of_skip(flv, 0);
                assert(flv.skip(1) =~= Seq::<Seq<Seq<char>>>::empty());
                assert(ms_of(flv.skip(1)) == Multiset::<Seq<char>>::empty());
                assert(views_of(result@).to_multiset() =~= ms_of(orig));
            } else {
                assert(views_of(result@) =~= Seq::<Seq<char>>::empty());
                assert(flv =~= Seq::<Seq<Seq<char>>>::empty());
                assert(views_of(result@).to_multiset() =~= ms_of(orig));
            }
        }
        (last_name, result)
    }

    /// Sort one whole input.  The lines are split into sorted chunks and the
    /// merge schedule is run to exhaustion; when the split leaves at most one
    /// chunk there is nothing to merge, and the raw input is sorted directly
    /// instead.  Either way the output is in ascending order and holds
    /// exactly the tokens of the input text.
    pub fn sort_file(&self, lines: &Vec<String>) -> (out: Vec<String>)
        requires
            self.lines_per_file >= 1,
        ensures
            lines_sorted(views_of(out@)),
            spec_chunks(views_of(lines@), self.lines_per_file as int).len() <= 1
                ==> views_of(out@).to_multiset() == tokens_of(
                spec_join(views_of(lines@)),
            ).to_multiset(),
            spec_chunks(views_of(lines@), self.lines_per_file as int).len() > 1 ==> views_of(
                out@,
            ).to_multiset() == chunk_tokens(views_of(lines@), self.lines_per_file as int),
    {
        let meta_and_chunks = self.split_files(lines);
        let file_level = meta_and_chunks.0.0;
        let chunks = meta_and_chunks.1;
        let ghost sc = spec_chunks(views_of(lines@), self.lines_per_file as int);
        let ghost cviews = files_view(chunks@);
        let merged_pair = FileSorter::merge_files(file_level, chunks);
        let result_file = merged_pair.0;
        let merged = merged_pair.1;
        proof {
            if cviews.len() > 1 {
                crate::naming::lemma_dec_rep_len(
                    final_level(file_level as int, cviews.len() as int) as nat,
                );
            }
        }
        if !result_file.as_str().is_empty() {
            proof {
                let mapped = sc.map_values(|c: Seq<Seq<char>>| tokens_of(spec_join(c)));
                lemma_ms_of_congruent(cviews, mapped);
            }
            merged
        } else {
            let content = join_lines(lines);
            sort_content(content.as_str())
        }
    }
}

} // verus!
