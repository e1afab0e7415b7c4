//! Random access into a CHD image: a CHD is stored as equally long compressed
//! hunks, and a state keeps one run of decompressed hunks at hand.
//!
//! Decompressing is file access and is done by the caller:
//! [`read_from_chd_cached`] copies what is at hand and names the hunks that it
//! needs next, and [`ChdState::load_range`] takes them in.

use crate::text::{decimal, decimal_text};
use vstd::arithmetic::div_mod::lemma_fundamental_div_mod;
use vstd::arithmetic::mul::{
    lemma_mul_inequality, lemma_mul_is_commutative, lemma_mul_is_distributive_add_other_way,
    lemma_mul_nonnegative, lemma_mul_upper_bound,
};
use vstd::prelude::*;
use vstd::string::*;

verus! {

/// How many hunks one cache miss asks for.
///
/// With hunks of 2048 bytes this is 8 MiB, which covers a contiguous burst of
/// a console in a single miss.
pub const CHD_READ_AHEAD_HUNKS: u64 = 4096;

/// What a [`ChdState`] is: the geometry of the image, and the run of
/// `cached_hunks` hunks from `cache_start` on that is at hand.
#[verifier::ext_equal]
pub struct ChdView {
    pub path: Seq<char>,
    pub hunk_size: nat,
    pub hunk_count: nat,
    pub cache_start: nat,
    pub cached_hunks: nat,
    pub cache: Seq<u8>,
}

/// Consecutive hunks of an image.
#[derive(Clone, Copy, PartialEq, Eq, Structural, Debug)]
pub struct HunkRange {
    pub start: u32,
    pub count: u32,
}

/// What a read has come to.
#[derive(Clone, Copy, PartialEq, Eq, Structural, Debug)]
pub enum ReadStep {
    /// All bytes that the read is to give have been copied.
    Done,
    /// The read goes on once these hunks have been loaded.
    Load(HunkRange),
}

/// A read that starts at or behind the end of the image.
#[derive(Clone, Copy, PartialEq, Eq, Structural, Debug)]
pub struct ReadPastEnd {
    pub offset: u64,
    pub logical_size: u64,
}

impl ReadPastEnd {
    /// What is told of it.
    pub open spec fn told(self) -> Seq<char> {
        "CHD read past end: offset "@ + decimal(self.offset as nat) + " >= logical size "@
            + decimal(self.logical_size as nat)
    }

    /// What is told of it.
    pub fn text(&self) -> (text: String)
        ensures
            text@ == self.told(),
    {
        let mut text: String = "CHD read past end: offset ".to_owned();
        text.append(decimal_text(self.offset).as_str());
        text.append(" >= logical size ");
        text.append(decimal_text(self.logical_size).as_str());
        text
    }
}

impl ChdView {
    /// The geometry fits a CHD header, and the cache is whole hunks of the image.
    pub open spec fn wf(self) -> bool {
        &&& self.hunk_size <= u32::MAX
        &&& self.hunk_count <= u32::MAX
        &&& self.cache_start + self.cached_hunks <= self.hunk_count
        &&& self.cache.len() == self.cached_hunks * self.hunk_size
    }

    /// The number of bytes in the image.
    pub open spec fn logical_size(self) -> nat {
        self.hunk_size * self.hunk_count
    }

    /// The position in the image of the first byte at hand.
    pub open spec fn cache_base(self) -> nat {
        self.cache_start * self.hunk_size
    }

    /// The byte at `pos` is at hand.
    pub open spec fn hit(self, pos: nat) -> bool {
        self.cache_base() <= pos < self.cache_base() + self.cache.len()
    }

    /// The bytes at hand from `pos` on, `n` at most.
    pub open spec fn at_hand(self, pos: nat, n: nat) -> Seq<u8> {
        if self.hit(pos) {
            let from = pos - self.cache_base();
            if from + n <= self.cache.len() {
                self.cache.subrange(from, from + n)
            } else {
                self.cache.subrange(from, self.cache.len() as int)
            }
        } else {
            Seq::empty()
        }
    }

    /// How many bytes a read of `length` at `offset` gives: a read stops at the
    /// end of the image.
    pub open spec fn readable(self, offset: nat, length: nat) -> nat
        recommends
            offset < self.logical_size(),
    {
        if offset + length <= self.logical_size() {
            length
        } else {
            (self.logical_size() - offset) as nat
        }
    }

    /// How many hunks a miss on hunk `start` asks for.
    pub open spec fn run_length(self, start: nat) -> nat
        recommends
            start <= self.hunk_count,
    {
        if start + CHD_READ_AHEAD_HUNKS <= self.hunk_count {
            CHD_READ_AHEAD_HUNKS as nat
        } else {
            (self.hunk_count - start) as nat
        }
    }

    /// The same image with `hunks` at hand, the first of them being hunk `start`.
    pub open spec fn loaded(self, start: nat, hunks: Seq<Seq<u8>>) -> ChdView {
        ChdView {
            cache_start: start,
            cached_hunks: hunks.len(),
            cache: hunks.flatten(),
            ..self
        }
    }

    /// A read of `length` bytes at `offset` of which `out` had been copied has now
    /// copied `longer` and come to `step`.
    pub open spec fn reads(
        self,
        offset: nat,
        length: nat,
        out: Seq<u8>,
        longer: Seq<u8>,
        step: Result<ReadStep, ReadPastEnd>,
    ) -> bool {
        match step {
            Err(refused) => {
                &&& offset >= self.logical_size()
                &&& refused.offset == offset
                &&& refused.logical_size == self.logical_size()
                &&& longer == out
            },
            Ok(step) => {
                let wanted = self.readable(offset, length);
                let copied = self.copied(offset, length, out);
                let next = (offset + copied.len()) / self.hunk_size;
                &&& offset < self.logical_size()
                &&& longer == copied
                &&& step == (if copied.len() < wanted {
                    ReadStep::Load(
                        HunkRange { start: next as u32, count: self.run_length(next) as u32 },
                    )
                } else {
                    ReadStep::Done
                })
                &&& copied.len() < wanted ==> next < self.hunk_count && !self.hit(
                    offset + copied.len(),
                )
            },
        }
    }

    /// What the read has copied once the bytes at hand have been added to `out`.
    pub open spec fn copied(self, offset: nat, length: nat, out: Seq<u8>) -> Seq<u8> {
        if out.len() < self.readable(offset, length) {
            out + self.at_hand(
                offset + out.len(),
                (self.readable(offset, length) - out.len()) as nat,
            )
        } else {
            out
        }
    }
}

/// The image at `path` with nothing at hand.
pub open spec fn chd_opened(path: Seq<char>, hunk_size: nat, hunk_count: nat) -> ChdView {
    ChdView { path, hunk_size, hunk_count, cache_start: 0, cached_hunks: 0, cache: Seq::empty() }
}

/// An open CHD image: its geometry, and the decompressed hunks at hand.
#[derive(Debug)]
pub struct ChdState {
    path: String,
    hunk_size: u32,
    hunk_count: u32,
    cache_start_hunk: u32,
    cache_hunk_count: u32,
    cache_data: Vec<u8>,
}

impl View for ChdState {
    type V = ChdView;

    closed spec fn view(&self) -> ChdView {
        ChdView {
            path: self.path@,
            hunk_size: self.hunk_size as nat,
            hunk_count: self.hunk_count as nat,
            cache_start: self.cache_start_hunk as nat,
            cached_hunks: self.cache_hunk_count as nat,
            cache: self.cache_data@,
        }
    }
}

impl ChdState {
    #[verifier::type_invariant]
    spec fn inv(self) -> bool {
        self@.wf()
    }

    /// The image at `path` with nothing at hand; `hunk_size` and `hunk_count`
    /// are those of the image's header.
    pub fn open(path: String, hunk_size: u32, hunk_count: u32) -> (state: ChdState)
        ensures
            state@ == chd_opened(path@, hunk_size as nat, hunk_count as nat),
            state@.wf(),
    {
        ChdState {
            path,
            hunk_size,
            hunk_count,
            cache_start_hunk: 0,
            cache_hunk_count: 0,
            cache_data: Vec::new(),
        }
    }

    /// Where the image is stored.
    pub fn path(&self) -> (path: &str)
        ensures
            path@ == self@.path,
    {
        self.path.as_str()
    }

    /// The number of bytes in one hunk.
    pub fn hunk_size(&self) -> (size: u32)
        ensures
            size == self@.hunk_size,
    {
        self.hunk_size
    }

    /// The number of bytes in the image.
    pub fn logical_size(&self) -> (size: u64)
        ensures
            size == self@.logical_size(),
            self@.wf(),
            size <= u32::MAX * u32::MAX,
    {
        proof {
            use_type_invariant(self);
            lemma_mul_upper_bound(
                self.hunk_size as int,
                u32::MAX as int,
                self.hunk_count as int,
                u32::MAX as int,
            );
        }
        self.hunk_size as u64 * self.hunk_count as u64
    }

    /// The hunks that a miss on hunk `start` asks for: up to
    /// [`CHD_READ_AHEAD_HUNKS`] of them, as far as the image goes.
    pub fn run_from(&self, start: u32) -> (range: HunkRange)
        requires
            start <= self@.hunk_count,
        ensures
            range.start == start,
            range.count == self@.run_length(start as nat),
    {
        let left: u32 = self.hunk_count - start;
        let count: u32 = if left as u64 >= CHD_READ_AHEAD_HUNKS {
            CHD_READ_AHEAD_HUNKS as u32
        } else {
            left
        };
        HunkRange { start, count }
    }

    /// Puts `hunks` at hand in place of what was there: the decompressed hunks
    /// of the run that starts at hunk `start`. At the end of the image the run is
    /// empty.
    pub fn load_range(&mut self, start: u32, hunks: &Vec<Vec<u8>>)
        requires
            start <= old(self)@.hunk_count,
            hunks@.len() == old(self)@.run_length(start as nat),
            forall|i: int|
                0 <= i < hunks@.len() ==> (#[trigger] hunks@[i])@.len() == old(self)@.hunk_size,
        ensures
            final(self)@ == old(self)@.loaded(start as nat, hunk_bytes(hunks@)),
            final(self)@.wf(),
    {
        let ghost before = self@;
        proof {
            use_type_invariant(&*self);
        }
        let mut data: Vec<u8> = Vec::new();
        let mut i: usize = 0;
        while i < hunks.len()
            invariant
                i <= hunks@.len(),
                data@ == hunk_bytes(hunks@).take(i as int).flatten(),
                data@.len() == i * before.hunk_size,
                forall|k: int|
                    0 <= k < hunks@.len() ==> (#[trigger] hunks@[k])@.len() == before.hunk_size,
            decreases hunks@.len() - i,
        {
            proof {
                let taken = hunk_bytes(hunks@).take(i as int);
                taken.lemma_flatten_push(hunks@[i as int]@);
                assert(taken.push(hunks@[i as int]@) =~= hunk_bytes(hunks@).take(i + 1));
                lemma_mul_is_distributive_add_other_way(before.hunk_size as int, i as int, 1);
            }
            let ghost filled = data@;
            data.extend_from_slice(hunks[i].as_slice());
            assert(data@ =~= filled + hunks@[i as int]@);
            i += 1;
        }
        assert(hunk_bytes(hunks@).take(i as int) =~= hunk_bytes(hunks@));
        let path: String = self.path.clone();
        let hunk_size: u32 = self.hunk_size;
        let hunk_count: u32 = self.hunk_count;
        *self = ChdState {
            path,
            hunk_size,
            hunk_count,
            cache_start_hunk: start,
            cache_hunk_count: hunks.len() as u32,
            cache_data: data,
        };
    }
}

/// The bytes of each hunk.
pub open spec fn hunk_bytes(hunks: Seq<Vec<u8>>) -> Seq<Seq<u8>> {
    hunks.map_values(|h: Vec<u8>| h@)
}

/// Hunk `pos / size` is one of `count` hunks from `start` on exactly where the
/// byte at `pos` lies among their bytes.
proof fn lemma_hunk_of_position(pos: nat, size: nat, start: nat, count: nat)
    requires
        size > 0,
    ensures
        start <= pos / size < start + count <==> start * size <= pos < start * size + count * size,
        (pos / size) * size <= pos < (pos / size) * size + size,
{
    let hunk = pos / size;
    lemma_fundamental_div_mod(pos as int, size as int);
    lemma_mul_is_commutative(size as int, hunk as int);
    lemma_mul_is_distributive_add_other_way(size as int, start as int, count as int);
    lemma_mul_is_distributive_add_other_way(size as int, hunk as int, 1);
    if start <= hunk {
        lemma_mul_inequality(start as int, hunk as int, size as int);
    } else {
        lemma_mul_inequality(hunk as int + 1, start as int, size as int);
    }
    if hunk < start + count {
        lemma_mul_inequality(hunk as int + 1, (start + count) as int, size as int);
    } else {
        lemma_mul_inequality((start + count) as int, hunk as int, size as int);
    }
}

/// Goes on with the read of `length` bytes at `offset` of which `out` has been
/// copied so far: adds to `out` what is at hand, and says whether the read is
/// complete or which hunks it needs next.
///
/// A read that starts behind the end of the image is refused, and one that
/// reaches over it stops there.
pub fn read_from_chd_cached(
    state: &ChdState,
    offset: u64,
    length: usize,
    out: &mut Vec<u8>,
) -> (step: Result<ReadStep, ReadPastEnd>)
    requires
        offset < state@.logical_size() ==> offset + length <= u64::MAX,
    ensures
        state@.wf(),
        state@.reads(offset as nat, length as nat, old(out)@, final(out)@, step),
{
    let logical_size: u64 = state.logical_size();
    if offset >= logical_size {
        return Err(ReadPastEnd { offset, logical_size });
    }
    let end: u64 = if offset + length as u64 <= logical_size {
        offset + length as u64
    } else {
        logical_size
    };
    let to_read: usize = (end - offset) as usize;
    let ghost view = state@;
    assert(to_read == view.readable(offset as nat, length as nat));
    if out.len() >= to_read {
        return Ok(ReadStep::Done);
    }
    let ghost before = out@;
    let pos: u64 = offset + out.len() as u64;
    assert(state.hunk_size > 0) by {
        if state.hunk_size == 0 {
            assert(view.logical_size() == 0) by (nonlinear_arith)
                requires
                    view.hunk_size == 0,
                    view.logical_size() == view.hunk_size * view.hunk_count,
            ;
        }
    }
    let hunk_size: u64 = state.hunk_size as u64;
    let cache_start: u64 = state.cache_start_hunk as u64;
    let hunk_num: u64 = pos / hunk_size;
    proof {
        lemma_hunk_of_position(
            pos as nat,
            view.hunk_size,
            view.cache_start,
            view.cached_hunks,
        );
    }
    let in_cache: bool = cache_start <= hunk_num && hunk_num < cache_start
        + state.cache_hunk_count as u64;
    assert(in_cache == view.hit(pos as nat));
    if in_cache {
        let cache_offset: usize = (pos - cache_start * hunk_size) as usize;
        let available: usize = state.cache_data.len() - cache_offset;
        let missing: usize = to_read - out.len();
        let to_copy: usize = if available <= missing {
            available
        } else {
            missing
        };
        let chunk: &[u8] = vstd::slice::slice_subrange(
            state.cache_data.as_slice(),
            cache_offset,
            cache_offset + to_copy,
        );
        out.extend_from_slice(chunk);
        assert(out@ =~= before + view.at_hand(pos as nat, missing as nat));
    } else {
        assert(out@ =~= before + view.at_hand(pos as nat, (to_read - before.len()) as nat));
    }
    if out.len() >= to_read {
        return Ok(ReadStep::Done);
    }
    let next_pos: u64 = offset + out.len() as u64;
    let next: u64 = next_pos / hunk_size;
    proof {
        assert(!view.hit(next_pos as nat));
        lemma_mul_is_commutative(view.hunk_size as int, view.hunk_count as int);
        lemma_hunk_of_position(next_pos as nat, view.hunk_size, 0, view.hunk_count);
    }
    Ok(ReadStep::Load(state.run_from(next as u32)))
}

impl ChdView {
    /// `disc` is what the image decompresses to, and what is at hand is a part
    /// of it.
    pub open spec fn holds(self, disc: Seq<u8>) -> bool {
        &&& disc.len() == self.logical_size()
        &&& self.cache == disc.subrange(
            self.cache_base() as int,
            (self.cache_base() + self.cache.len()) as int,
        )
    }

    /// The state after a miss on hunk `start` has been answered from `disc`.
    pub open spec fn reloaded(self, disc: Seq<u8>, start: nat) -> ChdView {
        self.loaded(start, hunks_of(disc, self.hunk_size, start, self.run_length(start)))
    }

    /// The state after a miss on the byte at `pos` has been answered from `disc`.
    pub open spec fn answered(self, disc: Seq<u8>, pos: nat) -> ChdView {
        self.reloaded(disc, pos / self.hunk_size)
    }

    /// What a read of `length` bytes at `offset` gives in the end if `out` has
    /// been copied so far and every miss is answered from `disc`.
    pub open spec fn read_through(
        self,
        disc: Seq<u8>,
        offset: nat,
        length: nat,
        out: Seq<u8>,
    ) -> Seq<u8>
        decreases
                self.readable(offset, length) - out.len(),
                if self.hit(offset + out.len()) {
                    0int
                } else {
                    1int
                },
        when self.wf() && disc.len() == self.logical_size() && offset < self.logical_size()
    {
        let copied = self.copied(offset, length, out);
        if copied.len() < self.readable(offset, length) {
            proof {
                law_an_answered_miss_is_a_hit(self, disc, offset + copied.len());
            }
            self.answered(disc, offset + copied.len()).read_through(disc, offset, length, copied)
        } else {
            copied
        }
    }
}

/// The `count` hunks of `disc` from hunk `start` on.
pub open spec fn hunks_of(disc: Seq<u8>, hunk_size: nat, start: nat, count: nat) -> Seq<Seq<u8>> {
    Seq::new(
        count,
        |i: int| disc.subrange((start + i) * hunk_size, (start + i) * hunk_size + hunk_size),
    )
}

/// The bytes of consecutive hunks are consecutive bytes of the image.
proof fn lemma_hunks_are_contiguous(disc: Seq<u8>, hunk_size: nat, start: nat, count: nat)
    requires
        (start + count) * hunk_size <= disc.len(),
    ensures
        hunks_of(disc, hunk_size, start, count).flatten() == disc.subrange(
            (start * hunk_size) as int,
            ((start + count) * hunk_size) as int,
        ),
        start * hunk_size + count * hunk_size == (start + count) * hunk_size,
    decreases count,
{
    lemma_mul_is_distributive_add_other_way(hunk_size as int, start as int, count as int);
    let hunks = hunks_of(disc, hunk_size, start, count);
    if count == 0 {
        assert(hunks.flatten() =~= Seq::empty());
    } else {
        let fewer = (count - 1) as nat;
        let rest = hunks_of(disc, hunk_size, start, fewer);
        lemma_mul_is_distributive_add_other_way(hunk_size as int, (start + fewer) as int, 1);
        lemma_mul_nonnegative(fewer as int, hunk_size as int);
        lemma_hunks_are_contiguous(disc, hunk_size, start, fewer);
        rest.lemma_flatten_push(hunks.last());
        assert(rest.push(hunks.last()) =~= hunks);
        assert(hunks.flatten() =~= disc.subrange(
            (start * hunk_size) as int,
            ((start + count) * hunk_size) as int,
        ));
    }
}

/// A miss at `pos` is within the image, and answering it puts `pos` at hand.
pub proof fn law_an_answered_miss_is_a_hit(state: ChdView, disc: Seq<u8>, pos: nat)
    requires
        state.wf(),
        disc.len() == state.logical_size(),
        pos < state.logical_size(),
    ensures
        pos / state.hunk_size < state.hunk_count,
        state.answered(disc, pos).wf(),
        state.answered(disc, pos).holds(disc),
        state.answered(disc, pos).hit(pos),
{
    let size = state.hunk_size;
    assert(size > 0) by (nonlinear_arith)
        requires
            pos < size * state.hunk_count,
    ;
    lemma_mul_is_commutative(size as int, state.hunk_count as int);
    lemma_hunk_of_position(pos, size, 0, state.hunk_count);
    let start = pos / size;
    law_a_miss_brings_in_a_part_of_the_image(state, disc, start);
    lemma_hunk_of_position(pos, size, start, state.run_length(start));
}

/// Answering a miss from the image puts a part of that image at hand, and
/// leaves the geometry as it is.
pub proof fn law_a_miss_brings_in_a_part_of_the_image(state: ChdView, disc: Seq<u8>, start: nat)
    requires
        state.wf(),
        disc.len() == state.logical_size(),
        start <= state.hunk_count,
    ensures
        state.reloaded(disc, start).wf(),
        state.reloaded(disc, start).holds(disc),
        state.reloaded(disc, start).logical_size() == state.logical_size(),
        state.reloaded(disc, start).cache.len() == state.run_length(start) * state.hunk_size,
{
    let count = state.run_length(start);
    lemma_mul_is_commutative(state.hunk_size as int, state.hunk_count as int);
    lemma_mul_inequality((start + count) as int, state.hunk_count as int, state.hunk_size as int);
    lemma_hunks_are_contiguous(disc, state.hunk_size, start, count);
}

/// A read gives exactly the bytes of the image: whatever was at hand, the
/// `length` bytes at `offset`, as far as the image goes.
pub proof fn law_a_read_gives_the_bytes_of_the_image(
    state: ChdView,
    disc: Seq<u8>,
    offset: nat,
    length: nat,
)
    requires
        state.wf(),
        state.holds(disc),
        offset < state.logical_size(),
    ensures
        state.read_through(disc, offset, length, Seq::empty()) == disc.subrange(
            offset as int,
            (offset + state.readable(offset, length)) as int,
        ),
{
    assert(disc.subrange(offset as int, offset as int) =~= Seq::<u8>::empty());
    lemma_read_through(state, disc, offset, length, Seq::empty());
}

proof fn lemma_read_through(
    state: ChdView,
    disc: Seq<u8>,
    offset: nat,
    length: nat,
    out: Seq<u8>,
)
    requires
        state.wf(),
        state.holds(disc),
        offset < state.logical_size(),
        out.len() <= state.readable(offset, length),
        out == disc.subrange(offset as int, (offset + out.len()) as int),
    ensures
        state.read_through(disc, offset, length, out) == disc.subrange(
            offset as int,
            (offset + state.readable(offset, length)) as int,
        ),
    decreases
            state.readable(offset, length) - out.len(),
            if state.hit(offset + out.len()) {
                0int
            } else {
                1int
            },
{
    let copied = state.copied(offset, length, out);
    lemma_copied_is_part(state, disc, offset, length, out);
    if copied.len() < state.readable(offset, length) {
        law_an_answered_miss_is_a_hit(state, disc, offset + copied.len());
        lemma_read_through(
            state.answered(disc, offset + copied.len()),
            disc,
            offset,
            length,
            copied,
        );
    }
}

/// A run of a read: what is at hand and has been copied before each step, and what the
/// step came to.
pub struct ChdRun {
    pub states: Seq<ChdView>,
    pub copied: Seq<Seq<u8>>,
    pub steps: Seq<Result<ReadStep, ReadPastEnd>>,
}

impl ChdRun {
    /// This is a run of a read of `length` bytes at `offset`: it goes on from each miss
    /// once the hunks asked for, which are those of `disc`, have been loaded.
    pub open spec fn reads_from(self, disc: Seq<u8>, offset: nat, length: nat) -> bool {
        &&& self.steps.len() > 0
        &&& self.states.len() == self.steps.len()
        &&& self.copied.len() == self.steps.len() + 1
        &&& self.copied[0] == Seq::<u8>::empty()
        &&& forall|i: int|
            0 <= i < self.steps.len() ==> (#[trigger] self.states[i]).reads(
                offset,
                length,
                self.copied[i],
                self.copied[i + 1],
                self.steps[i],
            )
        &&& forall|i: int|
            0 < i < self.steps.len() ==> {
                &&& self.steps[i - 1] matches Ok(ReadStep::Load(range))
                &&& #[trigger] self.states[i] == self.states[i - 1].loaded(
                    range.start as nat,
                    Seq::new(
                        range.count as nat,
                        |k: int|
                            disc.subrange(
                                (range.start + k) * self.states[i - 1].hunk_size,
                                (range.start + k) * self.states[i - 1].hunk_size
                                    + self.states[i - 1].hunk_size,
                            ),
                    ),
                )
            }
    }
}

/// What has been copied once the bytes at hand have been added is a part of the image.
proof fn lemma_copied_is_part(
    state: ChdView,
    disc: Seq<u8>,
    offset: nat,
    length: nat,
    out: Seq<u8>,
)
    requires
        state.wf(),
        state.holds(disc),
        offset < state.logical_size(),
        out.len() <= state.readable(offset, length),
        out == disc.subrange(offset as int, (offset + out.len()) as int),
    ensures
        ({
            let copied = state.copied(offset, length, out);
            &&& out.len() <= copied.len() <= state.readable(offset, length)
            &&& copied == disc.subrange(offset as int, (offset + copied.len()) as int)
            &&& state.hit(offset + out.len()) && out.len() < state.readable(offset, length)
                ==> out.len() < copied.len()
        }),
{
    let copied = state.copied(offset, length, out);
    let base = state.cache_base() as int;
    assert(base + state.cache.len() <= disc.len()) by {
        lemma_mul_is_commutative(state.hunk_size as int, state.hunk_count as int);
        lemma_mul_is_distributive_add_other_way(
            state.hunk_size as int,
            state.cache_start as int,
            state.cached_hunks as int,
        );
        lemma_mul_inequality(
            (state.cache_start + state.cached_hunks) as int,
            state.hunk_count as int,
            state.hunk_size as int,
        );
    }
    assert forall|i: int| 0 <= i < copied.len() implies copied[i] == disc[offset + i] by {
        if i < out.len() {
            assert(out[i] == disc.subrange(offset as int, (offset + out.len()) as int)[i]);
        } else {
            assert(state.cache[offset + i - base] == disc.subrange(
                base,
                base + state.cache.len(),
            )[offset + i - base]);
        }
    }
    assert(copied =~= disc.subrange(offset as int, (offset + copied.len()) as int));
}

/// Where a run of a read stands before its step `at`.
proof fn lemma_where_a_read_stands(
    run: ChdRun,
    disc: Seq<u8>,
    offset: nat,
    length: nat,
    at: int,
)
    requires
        run.reads_from(disc, offset, length),
        run.states[0].wf(),
        run.states[0].holds(disc),
        offset < disc.len(),
        0 <= at < run.steps.len(),
    ensures
        ({
            let state = run.states[at];
            let out = run.copied[at];
            &&& state.wf()
            &&& state.holds(disc)
            &&& state.hunk_size == run.states[0].hunk_size
            &&& state.hunk_count == run.states[0].hunk_count
            &&& state.path == run.states[0].path
            &&& out.len() <= state.readable(offset, length)
            &&& out == disc.subrange(offset as int, (offset + out.len()) as int)
            &&& at > 0 ==> out.len() < state.readable(offset, length) && state.hit(
                offset + out.len(),
            )
            &&& at <= out.len() + 1
        }),
    decreases at,
{
    assert(disc.subrange(offset as int, offset as int) =~= Seq::<u8>::empty());
    if at > 0 {
        lemma_where_a_read_stands(run, disc, offset, length, at - 1);
        let before = run.states[at - 1];
        let out = run.copied[at - 1];
        assert(before.reads(offset, length, out, run.copied[at], run.steps[at - 1]));
        lemma_copied_is_part(before, disc, offset, length, out);
        assert(run.states[at] == run.states[at]);
        let range = run.steps[at - 1]->Ok_0->Load_0;
        let pos = offset + run.copied[at].len();
        law_an_answered_miss_is_a_hit(before, disc, pos);
        let start = pos / before.hunk_size;
        assert(range.start == start);
        assert(range.count == before.run_length(start));
        assert(Seq::new(
            range.count as nat,
            |k: int|
                disc.subrange(
                    (range.start + k) * before.hunk_size,
                    (range.start + k) * before.hunk_size + before.hunk_size,
                ),
        ) =~= hunks_of(disc, before.hunk_size, start, before.run_length(start)));
        assert(run.states[at] == before.answered(disc, pos));
    }
}

/// A read gives the bytes of the image, whatever was at hand when it started and however
/// often it has to load hunks: at each step what has been copied is how the bytes asked
/// for start, and once it is done it is all of them, as far as the image goes. It asks
/// only for hunks that the image has, for 4096 at once as far as there are as many, and
/// first for the one that holds the byte it needs next; and it needs no more steps than
/// two and one for each byte. A read that starts at the end of the image or behind it is
/// refused at once, and that is told.
pub proof fn law_a_read_comes_to_the_bytes_of_the_image(
    run: ChdRun,
    disc: Seq<u8>,
    offset: nat,
    length: nat,
    at: int,
)
    requires
        run.reads_from(disc, offset, length),
        run.states[0].wf(),
        disc.len() == run.states[0].hunk_size * run.states[0].hunk_count,
        run.states[0].cache == disc.subrange(
            (run.states[0].cache_start * run.states[0].hunk_size) as int,
            (run.states[0].cache_start * run.states[0].hunk_size
                + run.states[0].cache.len()) as int,
        ),
        0 <= at < run.steps.len(),
    ensures
        run.steps.len() <= length + 2,
        offset >= disc.len() ==> at == 0 && run.copied[1].len() == 0 && {
            &&& run.steps[0] matches Err(refused)
            &&& refused.offset == offset
            &&& refused.logical_size == disc.len()
            &&& refused.told() == "CHD read past end: offset "@ + decimal(offset)
                + " >= logical size "@ + decimal(disc.len())
        },
        offset < disc.len() ==> {
            let end = if offset + length <= disc.len() {
                offset + length
            } else {
                disc.len()
            };
            let out = run.copied[at + 1];
            &&& run.states[at].path == run.states[0].path
            &&& run.states[at].hunk_size == run.states[0].hunk_size
            &&& run.states[at].hunk_count == run.states[0].hunk_count
            &&& offset + out.len() <= end
            &&& out == disc.subrange(offset as int, (offset + out.len()) as int)
            &&& match run.steps[at] {
                Err(_) => false,
                Ok(ReadStep::Done) => offset + out.len() == end,
                Ok(ReadStep::Load(range)) => {
                    let hunk_size = run.states[0].hunk_size;
                    let hunk_count = run.states[0].hunk_count;
                    &&& offset + out.len() < end
                    &&& range.start * hunk_size <= offset + out.len() < (range.start + 1)
                        * hunk_size
                    &&& 0 < range.count
                    &&& range.start + range.count <= hunk_count
                    &&& range.count == 4096 || (range.count < 4096 && range.start + range.count
                        == hunk_count)
                },
            }
        },
{
    let last = run.steps.len() - 1;
    assert(run.states[0].reads(offset, length, run.copied[0], run.copied[1], run.steps[0]));
    assert(run.states[0].logical_size() == disc.len());
    if offset >= disc.len() {
        if last > 0 {
            assert(run.states[1] == run.states[1]);
            assert(run.steps[1 - 1] is Ok);
        }
    } else {
        lemma_where_a_read_stands(run, disc, offset, length, last);
        lemma_where_a_read_stands(run, disc, offset, length, at);
        let state = run.states[at];
        let out = run.copied[at];
        assert(state.reads(offset, length, out, run.copied[at + 1], run.steps[at]));
        lemma_copied_is_part(state, disc, offset, length, out);
        let pos = offset + run.copied[at + 1].len();
        if run.steps[at] matches Ok(ReadStep::Load(_)) {
            law_an_answered_miss_is_a_hit(state, disc, pos);
            assert(state.hunk_size > 0) by (nonlinear_arith)
                requires
                    pos < state.hunk_size * state.hunk_count,
            ;
            lemma_hunk_of_position(pos, state.hunk_size, 0, state.hunk_count);
            lemma_mul_is_distributive_add_other_way(
                state.hunk_size as int,
                (pos / state.hunk_size) as int,
                1,
            );
        }
    }
}

/// A CHD that has just been opened has nothing at hand, and holds any image of as many
/// bytes as it has in its hunks.
pub proof fn law_an_opened_chd_has_nothing_at_hand(
    path: Seq<char>,
    hunk_size: nat,
    hunk_count: nat,
    disc: Seq<u8>,
    pos: nat,
)
    requires
        disc.len() == hunk_size * hunk_count,
    ensures
        chd_opened(path, hunk_size, hunk_count).holds(disc),
        chd_opened(path, hunk_size, hunk_count).logical_size() == hunk_size * hunk_count,
        chd_opened(path, hunk_size, hunk_count).path == path,
        chd_opened(path, hunk_size, hunk_count).hunk_size == hunk_size,
        chd_opened(path, hunk_size, hunk_count).hunk_count == hunk_count,
        !chd_opened(path, hunk_size, hunk_count).hit(pos),
{
    let state = chd_opened(path, hunk_size, hunk_count);
    assert(state.cache_base() == 0) by (nonlinear_arith)
        requires
            state.cache_base() == state.cache_start * state.hunk_size,
            state.cache_start == 0,
    ;
    assert(disc.subrange(0, 0) =~= Seq::<u8>::empty());
}

/// A miss asks for 4096 hunks, or for all that are left where these are fewer.
pub proof fn law_a_miss_asks_for_as_many_hunks_as_there_are(state: ChdView, start: nat)
    requires
        start <= state.hunk_count,
    ensures
        state.run_length(start) <= 4096,
        start + state.run_length(start) <= state.hunk_count,
        state.run_length(start) == 4096 || start + state.run_length(start) == state.hunk_count,
{
}

} // verus!
