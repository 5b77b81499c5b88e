//! The streaming run processor.
//!
//! A `Processor` is fed the input one line at a time and holds at most one
//! run in progress. Feeding a line that differs from the run in progress
//! closes that run and hands out its record, when the mode admits it;
//! finishing closes the last run.
use vstd::prelude::*;

use crate::config::{Config, Mode};
use crate::decimal::decimal_string;
use crate::runs::{
    admits,
    closed_runs,
    lemma_open_run_bounded,
    lemma_records_of_last_run,
    lemma_runs_partition,
    open_run_length,
    records,
    records_of_runs,
    render,
    runs_of,
};

verus! {

/// The records a call handed out: none, or the one it returned.
pub open spec fn handed_out(r: Option<String>) -> Seq<Seq<char>> {
    match r {
        Some(s) => seq![s@],
        None => seq![],
    }
}

/// The output text of a run of `count` copies of `line`.
fn render_run(counting: bool, count: u64, line: String) -> (r: String)
    ensures
        r@ == render(counting, (line@, count as nat)),
{
    if counting {
        let mut s = decimal_string(count);
        proof {
            reveal_strlit(" ");
        }
        s.append(" ");
        s.append(line.as_str());
        s
    } else {
        line
    }
}

/// The state between two lines: the run in progress, if any, and the settings.
/// Runs that the mode does not admit are skipped without ending the stream.
pub struct Processor {
    last_line: Option<String>,
    count: u64,
    counting: bool,
    mode: Mode,
    seen: Ghost<Seq<Seq<char>>>,
}

impl Processor {
    /// The lines fed so far.
    pub closed spec fn seen(&self) -> Seq<Seq<char>> {
        self.seen@
    }

    /// The mode the processor was made with.
    pub closed spec fn mode(&self) -> Mode {
        self.mode
    }

    /// Whether records carry their run length.
    pub closed spec fn counting(&self) -> bool {
        self.counting
    }

    /// The run in progress is the last run of the lines fed so far.
    pub closed spec fn wf(&self) -> bool {
        match self.last_line {
            None => self.seen@.len() == 0,
            Some(l) => self.seen@.len() > 0 && runs_of(self.seen@).last() == (l@, self.count as nat),
        }
    }

    /// The records handed out so far: those of every closed run.
    pub open spec fn emitted(&self) -> Seq<Seq<char>> {
        records_of_runs(self.mode(), self.counting(), closed_runs(self.seen()))
    }

    /// A processor that has read nothing yet.
    pub fn new(config: Config) -> (p: Self)
        ensures
            p.wf(),
            p.seen() == Seq::<Seq<char>>::empty(),
            p.mode() == config.mode,
            p.counting() == config.count,
    {
        Processor {
            last_line: None,
            count: 0,
            counting: config.count,
            mode: config.mode,
            seen: Ghost(Seq::empty()),
        }
    }

    /// The length of the run in progress, 0 before the first line.
    pub fn pending_count(&self) -> (n: u64)
        requires
            self.wf(),
        ensures
            n == open_run_length(self.seen()),
    {
        match self.last_line {
            Some(_) => self.count,
            None => 0,
        }
    }

    /// Takes the run in progress and gives its record, when the mode admits it.
    /// With no run in progress it gives nothing and changes nothing, so that no
    /// run is closed twice.
    fn create_output(&mut self) -> (r: Option<String>)
        ensures
            old(self).last_line.is_none() ==> r.is_none() && *final(self) == *old(self),
            final(self).last_line.is_none(),
            final(self).count == old(self).count,
            final(self).counting == old(self).counting,
            final(self).mode == old(self).mode,
            final(self).seen == old(self).seen,
            old(self).last_line.is_some() ==> r.is_some() == admits(
                old(self).mode,
                old(self).count as nat,
            ),
            r matches Some(s) ==> s@ == render(
                old(self).counting,
                (old(self).last_line->Some_0@, old(self).count as nat),
            ),
    {
        match self.last_line.take() {
            Some(line) => {
                let keep = match self.mode {
                    Mode::All => true,
                    Mode::Repeated => self.count > 1,
                    Mode::Unique => self.count == 1,
                };
                if keep {
                    Some(render_run(self.counting, self.count, line))
                } else {
                    None
                }
            },
            None => None,
        }
    }

    /// Reads one more line. When it differs from the run in progress, that run
    /// is closed and its record returned, if the mode admits it; the line then
    /// opens a new run. An equal line lengthens the run in progress.
    pub fn feed(&mut self, line: String) -> (r: Option<String>)
        requires
            old(self).wf(),
            open_run_length(old(self).seen()) < u64::MAX,
        ensures
            final(self).wf(),
            final(self).seen() == old(self).seen().push(line@),
            final(self).mode() == old(self).mode(),
            final(self).counting() == old(self).counting(),
            final(self).emitted() == old(self).emitted() + handed_out(r),
            r.is_some() ==> old(self).seen().len() > 0 && old(self).seen().last() != line@,
    {
        let ghost before = self.seen@;
        let ghost after = before.push(line@);
        proof {
            assert(after.drop_last() =~= before);
            lemma_runs_partition(before);
        }
        let r = match &self.last_line {
            Some(last) => {
                if line.eq(last) {
                    self.count = self.count + 1;
                    proof {
                        assert(runs_of(after).drop_last() =~= runs_of(before).drop_last());
                        assert(self.emitted() =~= self.emitted() + handed_out(None));
                    }
                    None
                } else {
                    let out = self.create_output();
                    self.last_line = Some(line);
                    self.count = 1;
                    proof {
                        lemma_records_of_last_run(self.mode, self.counting, runs_of(before));
                        assert(runs_of(after).drop_last() =~= runs_of(before));
                    }
                    out
                }
            },
            None => {
                self.last_line = Some(line);
                self.count = 1;
                proof {
                    assert(closed_runs(after) =~= closed_runs(before));
                    assert(records_of_runs(self.mode, self.counting, closed_runs(before))
                        =~= Seq::<Seq<char>>::empty());
                }
                None
            },
        };
        self.seen = Ghost(after);
        r
    }

    /// Closes the run in progress and gives its record, if there is a run and
    /// the mode admits it. Together with what `feed` handed out, these are the
    /// records of the whole input.
    pub fn finish(self) -> (r: Option<String>)
        requires
            self.wf(),
        ensures
            self.emitted() + handed_out(r) == records(self.mode(), self.counting(), self.seen()),
    {
        let mut this = self;
        let ghost lines = this.seen@;
        proof {
            lemma_runs_partition(lines);
            if lines.len() > 0 {
                lemma_records_of_last_run(this.mode, this.counting, runs_of(lines));
            } else {
                assert(records(this.mode, this.counting, lines) =~= Seq::<Seq<char>>::empty());
            }
        }
        this.create_output()
    }
}

/// Runs a processor over a whole input held in memory and collects the
/// records it gives, in order.
pub fn collapse(config: Config, lines: &Vec<String>) -> (r: Vec<String>)
    requires
        lines@.len() < u64::MAX,
    ensures
        r.deep_view() == records(config.mode, config.count, lines.deep_view()),
{
    let ghost input = lines.deep_view();
    let ghost mode = config.mode;
    let ghost counting = config.count;
    let mut p = Processor::new(config);
    let mut out: Vec<String> = Vec::new();
    let mut i: usize = 0;
    while i < lines.len()
        invariant
            input == lines.deep_view(),
            lines@.len() < u64::MAX,
            0 <= i <= lines@.len(),
            p.wf(),
            p.mode() == mode,
            p.counting() == counting,
            p.seen() == input.subrange(0, i as int),
            out.deep_view() == p.emitted(),
        decreases lines.len() - i,
    {
        proof {
            lemma_open_run_bounded(p.seen());
        }
        let ghost prior = out.deep_view();
        let r = p.feed(lines[i].clone());
        match r {
            Some(s) => {
                out.push(s);
            },
            None => {},
        }
        proof {
            assert(out.deep_view() =~= prior + handed_out(r));
            assert(input.subrange(0, i + 1) =~= input.subrange(0, i as int).push(lines@[i as int]@));
        }
        i = i + 1;
    }
    let ghost prior = out.deep_view();
    let ghost seen = p.seen();
    let r = p.finish();
    match r {
        Some(s) => {
            out.push(s);
        },
        None => {},
    }
    proof {
        assert(out.deep_view() =~= prior + handed_out(r));
        assert(seen =~= input);
    }
    out
}

} // verus!
