use vstd::prelude::*;
use vstd::utf8::{decode_utf8, decode_utf8_encode_utf8, encode_utf8, valid_utf8};
use crate::error::ResolveError;
use crate::pattern::{captures_of, Matcher, RawCapture};
use crate::scan::{scan, scan_ok, scanned, spans_of, Occurrence};
use crate::text::{append_range, indent_block, indented, splice, splice_all, spans_placed, Span};

verus! {

/// The directory part of a path, where it has one.
pub uninterp spec fn parent_of(path: Seq<char>) -> Option<Seq<char>>;

/// A relative path joined onto a directory.
pub uninterp spec fn joined_of(dir: Seq<char>, rel: Seq<char>) -> Seq<char>;

/// A path with `/` replaced by the platform's separator.
pub uninterp spec fn native_of(path: Seq<char>) -> Seq<char>;

/// Relies on `std::path::Path::parent`: the directory of `path`, where it has one.
#[verifier::external_body]
fn parent_dir(path: &str) -> (r: Option<String>)
    ensures
        r is None <==> parent_of(path@) is None,
        r matches Some(d) ==> d@ == parent_of(path@)->0,
{
    std::path::Path::new(path).parent().map(|d| d.to_string_lossy().into_owned())
}

/// The directory that the paths in the file at `path` are relative to: its parent, or the
/// empty path (the current directory) where it has none.
pub open spec fn dir_of(path: Seq<char>) -> Seq<char> {
    match parent_of(path) {
        Some(d) => d,
        None => Seq::empty(),
    }
}

/// Relies on `std::path::Path::join`: `rel` resolved against `dir`.
#[verifier::external_body]
fn join_path(dir: &str, rel: &str) -> (r: String)
    ensures
        r@ == joined_of(dir@, rel@),
{
    std::path::Path::new(dir).join(rel).to_string_lossy().into_owned()
}

/// Relies on `str::replace`: every `/` replaced by `std::path::MAIN_SEPARATOR_STR`, a
/// one-character separator that depends on the platform; every other character is kept.
#[verifier::external_body]
fn native_separators(path: &str) -> (r: String)
    ensures
        r@ == native_of(path@),
        r@.len() == path@.len(),
        forall|i: int| 0 <= i < path@.len() && path@[i] != '/' ==> r@[i] == path@[i],
{
    path.replace('/', std::path::MAIN_SEPARATOR_STR)
}

/// One file in the middle of its resolution.
struct Frame {
    content: String,
    dir: String,
    occs: Vec<Occurrence>,
    parts: Vec<Vec<u8>>,
}

/// What a frame of the resolution holds: the file's bytes, its directory, its
/// occurrences, and the formatted nested content of the occurrences resolved so far.
pub struct FrameView {
    pub content: Seq<u8>,
    pub dir: Seq<char>,
    pub occs: Seq<Occurrence>,
    pub parts: Seq<Seq<u8>>,
}

impl Frame {
    closed spec fn view(&self) -> FrameView {
        FrameView {
            content: encode_utf8(self.content@),
            dir: self.dir@,
            occs: self.occs@,
            parts: self.parts.deep_view(),
        }
    }
}

/// The frame's occurrences lie in order inside its content, and no more parts are
/// resolved than it has occurrences.
pub open spec fn frame_wf(f: FrameView) -> bool {
    &&& spans_placed(spans_of(f.occs), f.content.len())
    &&& f.parts.len() <= f.occs.len()
}

/// The document a frame stands for once every occurrence has its part.
pub open spec fn frame_output(f: FrameView) -> Seq<u8> {
    splice_all(f.content, spans_of(f.occs), f.parts)
}

/// The path that the next unresolved occurrence of a frame refers to.
pub open spec fn next_path(f: FrameView) -> Seq<char> {
    joined_of(f.dir, native_of(f.occs[f.parts.len() as int].path@))
}

/// Where the resolution stands after a frame finished with `out`.
pub enum Settled {
    /// The frames still in progress, the top one with an occurrence left to resolve.
    Pending(Seq<FrameView>),
    /// The root file's resolved document.
    Finished(Seq<u8>),
}

/// Hands `out` to the frame below as the part of its next occurrence, finishing frames for
/// as long as they have every part.
pub open spec fn settle(fs: Seq<FrameView>, out: Seq<u8>) -> Settled
    decreases fs.len(),
{
    if fs.len() == 0 {
        Settled::Finished(out)
    } else {
        let p = fs.last();
        let q = FrameView {
            parts: p.parts.push(indented(out, p.occs[p.parts.len() as int].indentation as nat)),
            ..p
        };
        if q.parts.len() < q.occs.len() {
            Settled::Pending(fs.drop_last().push(q))
        } else {
            settle(fs.drop_last(), frame_output(q))
        }
    }
}

/// The frame opened for a file with text `content`, read from a file in `dir`.
pub open spec fn fresh_frame(content: Seq<char>, dir: Seq<char>, occs: Seq<Occurrence>) -> FrameView {
    FrameView { content: encode_utf8(content), dir, occs, parts: Seq::empty() }
}

/// Where the resolution stands once the frame `f` of a file just read has been opened on
/// top of `fs`.
pub open spec fn after_read(fs: Seq<FrameView>, f: FrameView) -> Settled {
    if f.occs.len() > 0 {
        Settled::Pending(fs.push(f))
    } else {
        settle(fs, f.content)
    }
}

/// A file in which the matcher finds no match resolves to its own bytes.
pub proof fn lemma_plain_file_unchanged(
    source: Seq<char>,
    content: Seq<char>,
    dir: Seq<char>,
    occs: Seq<Occurrence>,
)
    requires
        captures_of(source, content) == Some(Seq::<RawCapture>::empty()),
        scanned(source, content, occs),
    ensures
        scan_ok(source, content),
        after_read(Seq::empty(), fresh_frame(content, dir, occs)) == Settled::Finished(
            encode_utf8(content),
        ),
{
}

/// Resolved output in which the matcher finds no match is a fixed point: resolving it once
/// more gives the same bytes.
pub proof fn lemma_resolved_output_fixed_point(
    source: Seq<char>,
    out: Seq<u8>,
    dir: Seq<char>,
    occs: Seq<Occurrence>,
)
    requires
        valid_utf8(out),
        captures_of(source, decode_utf8(out)) == Some(Seq::<RawCapture>::empty()),
        scanned(source, decode_utf8(out), occs),
    ensures
        scan_ok(source, decode_utf8(out)),
        after_read(Seq::empty(), fresh_frame(decode_utf8(out), dir, occs)) == Settled::Finished(
            out,
        ),
{
    decode_utf8_encode_utf8(out);
}

/// The step `r` and the frames `fs` left behind are what `s` says.
pub open spec fn step_agrees(s: Settled, r: Step, fs: Seq<FrameView>) -> bool {
    match s {
        Settled::Pending(p) => r is Read && fs == p,
        Settled::Finished(o) => r matches Step::Done { output } && output@ == o && fs.len() == 0,
    }
}

fn spans_vec(occs: &Vec<Occurrence>) -> (r: Vec<Span>)
    ensures
        r@ == spans_of(occs@),
{
    let mut r: Vec<Span> = Vec::new();
    let mut i: usize = 0;
    while i < occs.len()
        invariant
            i <= occs@.len(),
            r@ == spans_of(occs@.subrange(0, i as int)),
        decreases occs@.len() - i,
    {
        r.push(occs[i].span);
        assert(occs@.subrange(0, i + 1) =~= occs@.subrange(0, i as int).push(occs@[i as int]));
        assert(spans_of(occs@.subrange(0, i + 1)) =~= spans_of(occs@.subrange(0, i as int)).push(occs@[i as int].span));
        i = i + 1;
    }
    assert(occs@.subrange(0, i as int) =~= occs@);
    r
}

/// The next thing the resolution asks of its driver.
#[derive(Debug)]
pub enum Step {
    /// Read the file at `path` and hand its text to `Resolver::feed`.
    Read { path: String },
    /// The fully resolved document.
    Done { output: Vec<u8> },
    /// The resolution failed; nothing of it is to be emitted.
    Failed { error: ResolveError },
}

/// Resolves a root file and every file it includes, one read at a time: the driver
/// performs each read that a `Step::Read` asks for and hands the text back.
pub struct Resolver {
    matcher: Matcher,
    frames: Vec<Frame>,
    pending: String,
}

impl Resolver {
    /// The frames in progress, the root file's first.
    pub closed spec fn frames(&self) -> Seq<FrameView> {
        self.frames@.map_values(|f: Frame| f.view())
    }

    /// The regular expression the matcher was compiled from.
    pub closed spec fn matcher(&self) -> Seq<char> {
        self.matcher@
    }

    /// The path of the read that was asked for last.
    pub closed spec fn pending(&self) -> Seq<char> {
        self.pending@
    }

    pub open spec fn wf(&self) -> bool {
        &&& forall|i: int| 0 <= i < self.frames().len() ==> frame_wf(#[trigger] self.frames()[i])
        &&& forall|i: int|
            0 <= i < self.frames().len() ==> (#[trigger] self.frames()[i]).parts.len()
                < self.frames()[i].occs.len()
    }

    /// Starts the resolution of the file at `root`: the first step reads it.
    pub fn start(matcher: Matcher, root: &str) -> (r: (Resolver, Step))
        ensures
            r.0.wf(),
            r.0.matcher() == matcher@,
            r.0.frames().len() == 0,
            r.0.pending() == root@,
            r.1 matches Step::Read { path } && path@ == root@,
    {
        let res = Resolver { matcher, frames: Vec::new(), pending: String::from_str(root) };
        proof {
            assert(res.frames() =~= Seq::<FrameView>::empty());
        }
        (res, Step::Read { path: String::from_str(root) })
    }

    /// Takes the outcome of the read that the last `Step::Read` asked for (`None` where the
    /// file could not be read as text) and goes on until the next read, the resolved
    /// document, or an error.
    pub fn feed(&mut self, read: Option<String>) -> (r: Step)
        requires
            old(self).wf(),
        ensures
            final(self).wf(),
            final(self).matcher() == old(self).matcher(),
            read is None ==> (r is Failed && r->Failed_error is FileRead
                && r->Failed_error->FileRead_path@ == old(self).pending()),
            read is Some ==> (r is Failed <==> !scan_ok(old(self).matcher(), read->0@)),
            read is Some && r is Failed ==> r->Failed_error is MatchExtraction,
            r is Failed ==> final(self).frames().len() == 0,
            r matches Step::Read { path } ==> {
                &&& final(self).frames().len() > 0
                &&& path@ == next_path(final(self).frames().last())
                &&& final(self).pending() == path@
            },
            read is Some && !(r is Failed) ==> exists|occs: Seq<Occurrence>| {
                let f = #[trigger] fresh_frame(read->0@, dir_of(old(self).pending()), occs);
                &&& scanned(old(self).matcher(), read->0@, occs)
                &&& frame_wf(f)
                &&& step_agrees(after_read(old(self).frames(), f), r, final(self).frames())
            },
            read is Some && old(self).frames().len() == 0 && r is Done ==> r->Done_output@
                == encode_utf8(read->0@),
            read is Some && old(self).frames().len() == 0 && captures_of(
                old(self).matcher(),
                read->0@,
            ) == Some(Seq::<RawCapture>::empty()) ==> r is Done && r->Done_output@ == encode_utf8(
                read->0@,
            ),
    {
        let content = match read {
            None => {
                self.frames = Vec::new();
                proof {
                    assert(self.frames() =~= Seq::<FrameView>::empty());
                }
                return Step::Failed { error: ResolveError::FileRead { path: self.pending.clone() } };
            },
            Some(c) => c,
        };
        let occs = match scan(&self.matcher, content.as_str()) {
            Ok(o) => o,
            Err(e) => {
                self.frames = Vec::new();
                proof {
                    assert(self.frames() =~= Seq::<FrameView>::empty());
                }
                return Step::Failed { error: e };
            },
        };
        let dir = match parent_dir(self.pending.as_str()) {
            Some(d) => d,
            None => String::new(),
        };
        let ghost fs0 = self.frames();
        let ghost pend0 = self.pending@;
        let ghost f0 = fresh_frame(content@, dir_of(self.pending@), occs@);
        assert(frame_wf(f0));
        assert(f0 == fresh_frame(read->0@, dir_of(old(self).pending()), occs@));
        assert(scanned(old(self).matcher(), read->0@, occs@));
        assert(scan_ok(old(self).matcher(), read->0@));
        if occs.len() > 0 {
            let rel = native_separators(occs[0].path.as_str());
            let path = join_path(dir.as_str(), rel.as_str());
            self.pending = path.clone();
            let frame = Frame { content, dir, occs, parts: Vec::new() };
            proof {
                assert(frame.view().parts =~= Seq::<Seq<u8>>::empty());
                assert(frame.view() == f0);
            }
            self.frames.push(frame);
            proof {
                assert(self.frames() =~= fs0.push(f0));
                assert(step_agrees(after_read(old(self).frames(), f0), Step::Read { path }, self.frames()));
            }
            return Step::Read { path };
        }
        let mut out: Vec<u8> = Vec::new();
        append_range(&mut out, content.as_str().as_bytes(), 0, content.as_str().as_bytes().len());
        assert(out@ =~= f0.content);
        loop
            invariant
                self.wf(),
                settle(self.frames(), out@) == after_read(fs0, f0),
                f0.occs.len() == 0,
                fs0.len() == 0 ==> self.frames().len() == 0 && out@ == f0.content,
                read is Some,
                fs0 == old(self).frames(),
                pend0 == old(self).pending(),
                f0 == fresh_frame(read->0@, dir_of(pend0), f0.occs),
                scanned(old(self).matcher(), read->0@, f0.occs),
                scan_ok(old(self).matcher(), read->0@),
                self.matcher() == old(self).matcher(),
                frame_wf(f0),
            decreases self.frames@.len(),
        {
            let ghost fs = self.frames();
            let mut p = match self.frames.pop() {
                None => {
                    proof {
                        assert(fs =~= Seq::<FrameView>::empty());
                        assert(step_agrees(after_read(fs0, f0), Step::Done { output: out }, self.frames()));
                    }
                    return Step::Done { output: out };
                },
                Some(p) => p,
            };
            proof {
                assert(self.frames() =~= fs.drop_last());
                assert(p.view() == fs.last());
            }
            let k = p.parts.len();
            let part = indent_block(out.as_slice(), p.occs[k].indentation);
            let ghost old_parts = p.parts;
            let ghost part_v = part@;
            p.parts.push(part);
            proof {
                assert(p.parts@ == old_parts@.push(part));
                assert(part.deep_view() =~= part_v);
                assert(p.parts.deep_view() =~= old_parts.deep_view().push(part_v));
            }
            let ghost q = FrameView {
                parts: fs.last().parts.push(indented(out@, fs.last().occs[k as int].indentation as nat)),
                ..fs.last()
            };
            proof {
                assert(p.view().parts =~= q.parts);
                assert(p.view() == q);
            }
            if p.parts.len() < p.occs.len() {
                let rel = native_separators(p.occs[p.parts.len()].path.as_str());
                let path = join_path(p.dir.as_str(), rel.as_str());
                self.pending = path.clone();
                self.frames.push(p);
                proof {
                    assert(self.frames() =~= fs.drop_last().push(q));
                    assert(step_agrees(after_read(fs0, f0), Step::Read { path }, self.frames()));
                }
                return Step::Read { path };
            }
            let spans = spans_vec(&p.occs);
            out = splice(p.content.as_str().as_bytes(), &spans, &p.parts);
        }
    }
}

} // verus!
