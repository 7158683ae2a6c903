//! Channel pool, mixer and double-buffered playback scheduling.
use crate::bits::DecodeError;
use crate::flac::{block_mixed, header_values, zeroed, SimpleFlac};
use crate::raw_pcm::{mixed_samples, RawPcm8};
use crate::sound_info::{Sound, PLAYBUF_SIZE};
use vstd::prelude::*;

verus! {

/// Number of channels the pool holds.
pub const NUM_CHANNELS: usize = 4;

/// Why a sound could not be admitted to the pool.
#[derive(Debug, Clone, Copy, PartialEq, Eq, Structural)]
pub enum AudioError {
    /// The pool is full and holds no channel that may be evicted.
    NoRoom,
    /// The asset's header is malformed.
    Decode(DecodeError),
}

/// A live playback cursor over one asset.
#[derive(Clone, Copy)]
pub enum RuntimeSoundData {
    RawPcm8(RawPcm8),
    Flac(SimpleFlac),
}

impl RuntimeSoundData {
    pub open spec fn wf(&self) -> bool {
        match self {
            RuntimeSoundData::RawPcm8(x) => x.wf(),
            RuntimeSoundData::Flac(x) => x.wf(),
        }
    }

    /// Samples left before the end of the asset.
    pub open spec fn remaining(&self) -> nat {
        match self {
            RuntimeSoundData::RawPcm8(x) => x.remaining(),
            RuntimeSoundData::Flac(x) => x.remaining(),
        }
    }

    pub open spec fn is_looping(&self) -> bool {
        match self {
            RuntimeSoundData::RawPcm8(x) => x.is_looping(),
            RuntimeSoundData::Flac(x) => x.is_looping(),
        }
    }

    /// Over and not restarting: such a channel contributes nothing and is
    /// retired after the mix.
    pub open spec fn is_finished(&self) -> bool {
        self.remaining() == 0 && !self.is_looping()
    }

    /// Whether this cursor plays the asset `s`.
    pub open spec fn plays(&self, s: Sound) -> bool {
        match (*self, s) {
            (RuntimeSoundData::RawPcm8(x), Sound::RawPcm8(d)) => x.samples() == d@,
            (RuntimeSoundData::Flac(x), Sound::Flac(d)) => x.stream() == d@,
            _ => false,
        }
    }

    /// Whether the cursor stands at the start of its asset.
    pub open spec fn is_fresh(&self) -> bool {
        match self {
            RuntimeSoundData::RawPcm8(x) => x.position() == 0,
            RuntimeSoundData::Flac(x) => x.played() == 0 && x.cursor() == x.checkpoint(),
        }
    }

    /// A cursor at the start of `s`: raw samples play once, encoded streams
    /// loop.
    pub fn from_sound(s: &Sound) -> (r: Result<RuntimeSoundData, DecodeError>)
        requires
            s.bytes().len() <= usize::MAX / 8,
        ensures
            match admission_error(*s) {
                Some(e) => r == Err::<RuntimeSoundData, DecodeError>(e),
                None => r is Ok,
            },
            r matches Ok(c) ==> starts(c, *s),
    {
        match s {
            Sound::RawPcm8(data) => Ok(RuntimeSoundData::RawPcm8(RawPcm8::new(data, false))),
            Sound::Flac(data) => {
                let f = SimpleFlac::try_new(data, true)?;
                Ok(RuntimeSoundData::Flac(f))
            },
        }
    }

    /// Produces this channel's next block into `mixbuf`, with `block` as
    /// scratch space: added to it, or written over it when `overwrite` holds. A stream whose next frame does
    /// not decode leaves the buffer alone and halts for good.
    pub fn mix_into(&mut self, mixbuf: &mut Vec<i32>, block: &mut Vec<i32>, overwrite: bool) -> (r: Result<
        (),
        DecodeError,
    >)
        requires
            old(self).wf(),
            old(block).len() == old(mixbuf).len(),
        ensures
            final(block).len() == old(block).len(),
            final(self).wf(),
            final(mixbuf).len() == old(mixbuf).len(),
            final(mixbuf)@ == contribution(*old(self), old(mixbuf)@, overwrite),
            mixed_state(*old(self), *final(self), old(mixbuf).len() as nat),
            forall|s: Sound| old(self).plays(s) ==> #[trigger] final(self).plays(s),
    {
        match self {
            RuntimeSoundData::RawPcm8(x) => {
                proof {
                    if x.remaining() == 0 && !x.is_looping() {
                        assert(x.mix_count(mixbuf.len() as nat) == 0);
                    }
                }
                let ghost before = mixbuf@;
                x.mix_into(mixbuf, overwrite);
                proof {
                    if old(self).is_finished() {
                        assert(mixbuf@ =~= before);
                    }
                }
                Ok(())
            },
            RuntimeSoundData::Flac(x) => x.mix_into(mixbuf, block, overwrite),
        }
    }

    /// Samples left before the end of the asset.
    pub fn remaining_samples(&self) -> (r: u64)
        requires
            self.wf(),
        ensures
            r == self.remaining(),
    {
        match self {
            RuntimeSoundData::RawPcm8(x) => x.remaining_samples() as u64,
            RuntimeSoundData::Flac(x) => x.remaining_samples(),
        }
    }

    /// Whether the asset restarts at its end.
    pub fn looping(&self) -> (r: bool)
        ensures
            r == self.is_looping(),
    {
        match self {
            RuntimeSoundData::RawPcm8(x) => x.looping(),
            RuntimeSoundData::Flac(x) => x.looping(),
        }
    }

    /// Whether the channel is over and will not restart.
    pub fn finished(&self) -> (r: bool)
        requires
            self.wf(),
        ensures
            r == self.is_finished(),
    {
        self.remaining_samples() == 0 && !self.looping()
    }

    /// Whether this cursor plays the asset `s`.
    pub fn same_asset(&self, s: &Sound) -> (r: bool)
        ensures
            r == self.plays(*s),
    {
        match (self, s) {
            (RuntimeSoundData::RawPcm8(x), Sound::RawPcm8(d)) => same_bytes(x.data(), d),
            (RuntimeSoundData::Flac(x), Sound::Flac(d)) => same_bytes(x.data(), d),
            _ => false,
        }
    }
}

/// Whether two byte strings are equal.
pub fn same_bytes(a: &[u8], b: &[u8]) -> (r: bool)
    ensures
        r == (a@ == b@),
{
    if a.len() != b.len() {
        return false;
    }
    let mut i: usize = 0;
    while i < a.len()
        invariant
            a@.len() == b@.len(),
            i <= a@.len(),
            forall|j: int| 0 <= j < i ==> a@[j] == b@[j],
        decreases a@.len() - i,
    {
        if a[i] != b[i] {
            return false;
        }
        i = i + 1;
    }
    proof {
        assert(a@ =~= b@);
    }
    true
}

/// Whether `c` is a new cursor at the start of the asset `s`: raw samples
/// play once from their first sample; an encoded stream loops, and stands at
/// its first frame with the parameters its header declares.
pub open spec fn starts(c: RuntimeSoundData, s: Sound) -> bool {
    &&& c.wf()
    &&& c.plays(s)
    &&& c.is_fresh()
    &&& c.is_looping() == (s is Flac)
    &&& match c {
        RuntimeSoundData::Flac(f) => match header_values(f.stream()) {
            Ok((info, end)) => f.cursor().pos() == end && f.depth() == info.2 && f.declared_samples() == info.3,
            Err(_) => false,
        },
        RuntimeSoundData::RawPcm8(x) => true,
    }
}

/// Why the asset `s` cannot be played at all: an encoded stream whose
/// header does not parse.
pub open spec fn admission_error(s: Sound) -> Option<DecodeError> {
    match s {
        Sound::Flac(d) => match header_values(d@) {
            Err(e) => Some(e),
            Ok(_) => None,
        },
        Sound::RawPcm8(_) => None,
    }
}

/// Whether the pool is full and every channel in it loops, so that nothing
/// may be evicted.
pub open spec fn full_of_looping(slots: Seq<(RuntimeSoundData, bool)>) -> bool {
    &&& slots.len() == NUM_CHANNELS
    &&& forall|j: int| 0 <= j < slots.len() ==> #[trigger] slots[j].0.is_looping()
}

/// `s` with its element `i` replaced by its last element, then shortened by
/// one: removal by swapping with the last element.
pub open spec fn swap_removed<T>(s: Seq<T>, i: int) -> Seq<T> {
    s.update(i, s.last()).drop_last()
}

/// Whether slot `k` is the one eviction picks: among the channels that do
/// not loop, the one with the fewest remaining samples, the first in pool
/// order on a tie.
pub open spec fn is_eviction_choice(slots: Seq<(RuntimeSoundData, bool)>, k: int) -> bool {
    &&& 0 <= k < slots.len()
    &&& !slots[k].0.is_looping()
    &&& forall|j: int|
        0 <= j < slots.len() && !slots[j].0.is_looping() ==> slots[k].0.remaining()
            <= #[trigger] slots[j].0.remaining()
    &&& forall|j: int|
        0 <= j < k && !slots[j].0.is_looping() ==> slots[k].0.remaining() < #[trigger] slots[j].0.remaining()
}

/// Whether `after` is the pool `before` with a fresh cursor over `s`
/// admitted at the end, in the music role when `music` holds: straight
/// away when there is room, else after evicting the channel that
/// [`is_eviction_choice`] picks.
pub open spec fn admitted(
    before: Seq<(RuntimeSoundData, bool)>,
    after: Seq<(RuntimeSoundData, bool)>,
    s: Sound,
    music: bool,
) -> bool {
    &&& after.len() > 0
    &&& starts(after.last().0, s)
    &&& after.last().1 == music
    &&& if before.len() < NUM_CHANNELS {
        after.drop_last() == before
    } else {
        exists|k: int| is_eviction_choice(before, k) && after.drop_last() == swap_removed(before, k)
    }
}

/// High byte of an accumulated sample, as a signed 8-bit output.
pub open spec fn high_byte(v: i32) -> i8 {
    (v >> 8) as i8
}

/// The second output of the pair: the high byte, plus one when bit 7 (the
/// ninth bit of precision) is set.
pub open spec fn high_byte_rounded(v: i32) -> i8 {
    if v & 0x80 != 0 {
        high_byte(v).wrapping_add(1)
    } else {
        high_byte(v)
    }
}

/// Splits an accumulated sample into the two 8-bit outputs whose sum the
/// hardware plays, recovering a ninth bit of amplitude.
pub fn split_sample(v: i32) -> (r: (i8, i8))
    ensures
        r.0 == high_byte(v),
        r.1 == high_byte_rounded(v),
        r.1 as int - r.0 as int == 0 || r.1 as int - r.0 as int == 1 || (r.0 == 127 && r.1 == -128),
{
    let a = (v >> 8) as i8;
    let b = if v & 0x80 != 0 {
        a.wrapping_add(1)
    } else {
        a
    };
    (a, b)
}

/// One half of the double buffer: the two 8-bit output streams.
pub struct PlayBufferPair {
    pub a: Vec<i8>,
    pub b: Vec<i8>,
}

impl PlayBufferPair {
    fn new() -> (r: Self)
        ensures
            r.a.len() == PLAYBUF_SIZE,
            r.b.len() == PLAYBUF_SIZE,
    {
        PlayBufferPair { a: vec![0i8; PLAYBUF_SIZE], b: vec![0i8; PLAYBUF_SIZE] }
    }

    /// Writes the split of every accumulated sample of `mix`.
    fn fill(&mut self, mix: &Vec<i32>)
        requires
            old(self).a.len() == mix.len(),
            old(self).b.len() == mix.len(),
        ensures
            final(self).a@ == Seq::new(mix.len() as nat, |i: int| high_byte(mix@[i])),
            final(self).b@ == Seq::new(mix.len() as nat, |i: int| high_byte_rounded(mix@[i])),
    {
        let mut i: usize = 0;
        while i < mix.len()
            invariant
                self.a.len() == mix.len(),
                self.b.len() == mix.len(),
                i <= mix.len(),
                forall|j: int| 0 <= j < i ==> self.a@[j] == high_byte(mix@[j]),
                forall|j: int| 0 <= j < i ==> self.b@[j] == high_byte_rounded(mix@[j]),
            decreases mix.len() - i,
        {
            let (x, y) = split_sample(mix[i]);
            self.a.set(i, x);
            self.b.set(i, y);
            i = i + 1;
        }
        proof {
            assert(self.a@ =~= Seq::new(mix.len() as nat, |i: int| high_byte(mix@[i])));
            assert(self.b@ =~= Seq::new(mix.len() as nat, |i: int| high_byte_rounded(mix@[i])));
        }
    }
}

/// The audio engine: a pool of at most [`NUM_CHANNELS`] channels, one of
/// which may hold the music role, and two output buffer pairs of which one
/// is read by the hardware while the mixer fills the other.
pub struct AudioDriver {
    playbuf_0: PlayBufferPair,
    playbuf_1: PlayBufferPair,
    cur_playbuf: usize,
    cur_bgm: Option<usize>,
    sounds: Vec<RuntimeSoundData>,
    music_roles: Ghost<Seq<bool>>,
    mix_buffer: Vec<i32>,
    block_buffer: Vec<i32>,
}

impl AudioDriver {
    pub closed spec fn wf(&self) -> bool {
        &&& self.sounds.len() <= NUM_CHANNELS
        &&& self.music_roles@.len() == self.sounds.len()
        &&& forall|i: int| 0 <= i < self.sounds.len() ==> #[trigger] self.sounds@[i].wf()
        &&& forall|i: int|
            0 <= i < self.sounds.len() ==> (#[trigger] self.music_roles@[i] <==> self.cur_bgm
                == Some(i as usize))
        &&& self.cur_bgm matches Some(i) ==> i < self.sounds.len()
        &&& self.cur_playbuf < 2
        &&& self.playbuf_0.a.len() == PLAYBUF_SIZE
        &&& self.playbuf_0.b.len() == PLAYBUF_SIZE
        &&& self.playbuf_1.a.len() == PLAYBUF_SIZE
        &&& self.playbuf_1.b.len() == PLAYBUF_SIZE
        &&& self.mix_buffer.len() == PLAYBUF_SIZE
        &&& self.block_buffer.len() == PLAYBUF_SIZE
    }

    /// The channels in pool order, each with whether it holds the music role.
    pub closed spec fn slots(&self) -> Seq<(RuntimeSoundData, bool)> {
        Seq::new(self.sounds.len() as nat, |i: int| (self.sounds@[i], self.music_roles@[i]))
    }

    proof fn lemma_slots(&self)
        ensures
            self.slots().len() == self.sounds.len(),
            forall|j: int|
                0 <= j < self.sounds.len() ==> #[trigger] self.slots()[j] == (
                    self.sounds@[j],
                    self.music_roles@[j],
                ),
    {
    }

    /// The recorded index of the music channel.
    pub closed spec fn music_slot(&self) -> Option<usize> {
        self.cur_bgm
    }

    /// The buffer pair the mixer fills next.
    pub closed spec fn cur(&self) -> nat {
        self.cur_playbuf as nat
    }

    /// The two output streams of buffer pair `slot`.
    pub closed spec fn buffers(&self, slot: nat) -> (Seq<i8>, Seq<i8>) {
        if slot == 0 {
            (self.playbuf_0.a@, self.playbuf_0.b@)
        } else {
            (self.playbuf_1.a@, self.playbuf_1.b@)
        }
    }

    /// An engine with no channels and silent buffers.
    pub fn new() -> (r: Self)
        ensures
            r.wf(),
            r.slots().len() == 0,
            r.music_slot() is None,
            r.cur() == 0,
    {
        AudioDriver {
            playbuf_0: PlayBufferPair::new(),
            playbuf_1: PlayBufferPair::new(),
            cur_playbuf: 0,
            cur_bgm: None,
            sounds: Vec::with_capacity(NUM_CHANNELS),
            music_roles: Ghost(Seq::empty()),
            mix_buffer: zeroed(PLAYBUF_SIZE),
            block_buffer: zeroed(PLAYBUF_SIZE),
        }
    }

    /// Removes channel `index` by swapping the last channel into its place;
    /// the recorded music index follows the moved channel.
    fn remove_sound(&mut self, index: usize)
        requires
            old(self).wf(),
            index < old(self).slots().len(),
        ensures
            final(self).wf(),
            final(self).slots() == swap_removed(old(self).slots(), index as int),
            old(self).music_slot() == Some(index) ==> final(self).music_slot() is None,
            old(self).music_slot() is None ==> final(self).music_slot() is None,
            final(self).cur() == old(self).cur(),
            final(self).buffers(0) == old(self).buffers(0),
            final(self).buffers(1) == old(self).buffers(1),
    {
        let ghost old_slots = self.slots();
        self.sounds.swap_remove(index);
        let ghost roles = self.music_roles@;
        self.music_roles = Ghost(swap_removed(roles, index as int));
        match self.cur_bgm {
            Some(x) => {
                if x == index {
                    self.cur_bgm = None;
                } else if x == self.sounds.len() {
                    self.cur_bgm = Some(index);
                }
            },
            None => {},
        }
        proof {
            assert(self.slots() =~= swap_removed(old_slots, index as int));
        }
    }

    /// The channel eviction picks, if any channel does not loop.
    fn stale_index(&self) -> (r: Option<usize>)
        requires
            self.wf(),
        ensures
            r matches Some(k) ==> is_eviction_choice(self.slots(), k as int),
            r is None ==> forall|j: int| 0 <= j < self.slots().len() ==> #[trigger] self.slots()[j].0.is_looping(),
    {
        let mut best: Option<usize> = None;
        let mut best_remaining: u64 = 0;
        let mut i: usize = 0;
        while i < self.sounds.len()
            invariant
                self.wf(),
                i <= self.sounds.len(),
                best is None ==> forall|j: int| 0 <= j < i ==> #[trigger] self.sounds@[j].is_looping(),
                best matches Some(k) ==> {
                    &&& k < i
                    &&& !self.sounds@[k as int].is_looping()
                    &&& best_remaining == self.sounds@[k as int].remaining()
                    &&& forall|j: int|
                        0 <= j < i && !self.sounds@[j].is_looping() ==> best_remaining
                            <= #[trigger] self.sounds@[j].remaining()
                    &&& forall|j: int|
                        0 <= j < k && !self.sounds@[j].is_looping() ==> best_remaining
                            < #[trigger] self.sounds@[j].remaining()
                },
            decreases self.sounds.len() - i,
        {
            let s = &self.sounds[i];
            if !s.looping() {
                let rem = s.remaining_samples();
                match best {
                    None => {
                        best = Some(i);
                        best_remaining = rem;
                    },
                    Some(_) => {
                        if rem < best_remaining {
                            best = Some(i);
                            best_remaining = rem;
                        }
                    },
                }
            }
            i = i + 1;
        }
        best
    }

    /// Evicts the channel [`is_eviction_choice`] picks; gives whether there
    /// was one.
    fn remove_stale_sound(&mut self) -> (r: bool)
        requires
            old(self).wf(),
        ensures
            final(self).wf(),
            final(self).cur() == old(self).cur(),
            final(self).buffers(0) == old(self).buffers(0),
            final(self).buffers(1) == old(self).buffers(1),
            old(self).music_slot() is None ==> final(self).music_slot() is None,
            r ==> exists|k: int|
                is_eviction_choice(old(self).slots(), k) && final(self).slots() == swap_removed(
                    old(self).slots(),
                    k,
                ),
            !r ==> *final(self) == *old(self) && forall|j: int|
                0 <= j < old(self).slots().len() ==> #[trigger] old(self).slots()[j].0.is_looping(),
    {
        match self.stale_index() {
            Some(k) => {
                self.remove_sound(k);
                true
            },
            None => false,
        }
    }

    /// Adds `rt` to the pool, evicting first when it is full.
    fn take_in(&mut self, rt: RuntimeSoundData, music: bool, s: Ghost<Sound>) -> (r: bool)
        requires
            old(self).wf(),
            rt.wf(),
            starts(rt, s@),
            music ==> old(self).music_slot() is None,
        ensures
            final(self).wf(),
            final(self).cur() == old(self).cur(),
            final(self).buffers(0) == old(self).buffers(0),
            final(self).buffers(1) == old(self).buffers(1),
            r ==> admitted(old(self).slots(), final(self).slots(), s@, music),
            r ==> music ==> final(self).music_slot() == Some((final(self).slots().len() - 1) as usize),
            !r ==> *final(self) == *old(self),
            !r <==> old(self).slots().len() == NUM_CHANNELS && forall|j: int|
                0 <= j < old(self).slots().len() ==> #[trigger] old(self).slots()[j].0.is_looping(),
    {
        let ghost before = self.slots();
        if self.sounds.len() == NUM_CHANNELS {
            if !self.remove_stale_sound() {
                return false;
            }
        }
        let ghost mid = self.slots();
        let ghost mid_roles = self.music_roles@;
        let ghost mid_sounds = self.sounds@;
        self.sounds.push(rt);
        self.music_roles = Ghost(self.music_roles@.push(music));
        if music {
            self.cur_bgm = Some(self.sounds.len() - 1);
        }
        proof {
            assert forall|i: int| 0 <= i < self.sounds.len() implies #[trigger] self.sounds@[i].wf() by {
                if i < mid_sounds.len() {
                    assert(self.sounds@[i] == mid_sounds[i]);
                }
            }
            assert forall|i: int| 0 <= i < self.sounds.len() implies (#[trigger] self.music_roles@[i]
                <==> self.cur_bgm == Some(i as usize)) by {
                if i < mid_roles.len() {
                    assert(self.music_roles@[i] == mid_roles[i]);
                }
            }
            assert(self.slots().drop_last() =~= mid);
            if before.len() < NUM_CHANNELS {
                assert(mid == before);
            }
            if music {
                assert(forall|i: int| 0 <= i < mid.len() ==> !#[trigger] mid[i].1);
            }
        }
        true
    }

    /// Starts `sound` as the music. The same asset already in the music role
    /// keeps playing undisturbed; any other music is replaced.
    pub fn set_bgm(&mut self, sound: &Sound) -> (r: Result<(), AudioError>)
        requires
            old(self).wf(),
            sound.bytes().len() <= usize::MAX / 8,
        ensures
            final(self).wf(),
            final(self).cur() == old(self).cur(),
            final(self).buffers(0) == old(self).buffers(0),
            final(self).buffers(1) == old(self).buffers(1),
            ({
                let keep = old(self).music_slot() matches Some(i) && old(self).slots()[i as int].0.plays(*sound);
                let base = match old(self).music_slot() {
                    Some(i) => swap_removed(old(self).slots(), i as int),
                    None => old(self).slots(),
                };
                if keep {
                    *final(self) == *old(self) && r is Ok
                } else {
                    match admission_error(*sound) {
                        Some(e) => r == Err::<(), AudioError>(AudioError::Decode(e)) && final(self).slots() == base
                            && final(self).music_slot() is None,
                        None => if full_of_looping(base) {
                            r == Err::<(), AudioError>(AudioError::NoRoom) && final(self).slots() == base
                                && final(self).music_slot() is None
                        } else {
                            &&& r is Ok
                            &&& admitted(base, final(self).slots(), *sound, true)
                            &&& final(self).music_slot() == Some((final(self).slots().len() - 1) as usize)
                        },
                    }
                }
            }),
    {
        match self.cur_bgm {
            Some(index) => {
                if self.sounds[index].same_asset(sound) {
                    return Ok(());
                }
                self.remove_sound(index);
            },
            None => {},
        }
        let rt = match RuntimeSoundData::from_sound(sound) {
            Ok(rt) => rt,
            Err(e) => {
                return Err(AudioError::Decode(e));
            },
        };
        if self.take_in(rt, true, Ghost(*sound)) {
            Ok(())
        } else {
            Err(AudioError::NoRoom)
        }
    }

    /// Starts `sound` as an effect. When the pool is full the channel
    /// [`is_eviction_choice`] picks makes room; when every channel loops the
    /// sound is turned away.
    pub fn play_sfx(&mut self, sound: &Sound) -> (r: Result<(), AudioError>)
        requires
            old(self).wf(),
            sound.bytes().len() <= usize::MAX / 8,
        ensures
            final(self).wf(),
            final(self).cur() == old(self).cur(),
            final(self).buffers(0) == old(self).buffers(0),
            final(self).buffers(1) == old(self).buffers(1),
            match admission_error(*sound) {
                Some(e) => r == Err::<(), AudioError>(AudioError::Decode(e)) && *final(self) == *old(self),
                None => if full_of_looping(old(self).slots()) {
                    r == Err::<(), AudioError>(AudioError::NoRoom) && *final(self) == *old(self)
                } else {
                    r is Ok && admitted(old(self).slots(), final(self).slots(), *sound, false)
                },
            },
    {
        let rt = match RuntimeSoundData::from_sound(sound) {
            Ok(rt) => rt,
            Err(e) => {
                return Err(AudioError::Decode(e));
            },
        };
        if self.take_in(rt, false, Ghost(*sound)) {
            Ok(())
        } else {
            Err(AudioError::NoRoom)
        }
    }

    /// The channels in pool order.
    pub fn channels(&self) -> (r: &Vec<RuntimeSoundData>)
        requires
            self.wf(),
        ensures
            r.len() == self.slots().len(),
            forall|i: int| 0 <= i < r.len() ==> #[trigger] r@[i] == self.slots()[i].0,
    {
        &self.sounds
    }

    /// The recorded index of the music channel.
    pub fn music_index(&self) -> (r: Option<usize>)
        ensures
            r == self.music_slot(),
    {
        self.cur_bgm
    }

    /// Frame tick: hands the buffer pair the mixer filled last to the
    /// hardware transfer and returns its index; the mixer fills the other
    /// pair next.
    pub fn dsound_vblank(&mut self) -> (slot: usize)
        requires
            old(self).wf(),
        ensures
            final(self).wf(),
            slot == old(self).cur(),
            final(self).cur() == 1 - old(self).cur(),
            final(self).slots() == old(self).slots(),
            final(self).music_slot() == old(self).music_slot(),
            final(self).buffers(0) == old(self).buffers(0),
            final(self).buffers(1) == old(self).buffers(1),
    {
        let slot = self.cur_playbuf;
        self.cur_playbuf = 1 - self.cur_playbuf;
        slot
    }

    /// The pair the hardware transfer reads: the one handed over at the
    /// last frame tick.
    pub fn prev_playbufs(&self) -> (r: (&Vec<i8>, &Vec<i8>))
        requires
            self.wf(),
        ensures
            (r.0@, r.1@) == self.buffers((1 - self.cur()) as nat),
            r.0.len() == PLAYBUF_SIZE,
            r.1.len() == PLAYBUF_SIZE,
    {
        if self.cur_playbuf == 0 {
            (&self.playbuf_1.a, &self.playbuf_1.b)
        } else {
            (&self.playbuf_0.a, &self.playbuf_0.b)
        }
    }

    /// Mixes every channel's next block, in pool order, into the
    /// accumulation buffer, which is first cleared to silence. The music channel writes
    /// over what is there; the others add to it.
    fn accumulate(&mut self)
        requires
            old(self).wf(),
        ensures
            final(self).wf(),
            final(self).cur() == old(self).cur(),
            final(self).buffers(0) == old(self).buffers(0),
            final(self).buffers(1) == old(self).buffers(1),
            final(self).music_slot() == old(self).music_slot(),
            final(self).slots().len() == old(self).slots().len(),
            forall|j: int|
                0 <= j < final(self).slots().len() ==> (#[trigger] final(self).slots()[j]).1 == old(
                    self,
                ).slots()[j].1 && mixed_state(old(self).slots()[j].0, final(self).slots()[j].0, PLAYBUF_SIZE as nat),
            final(self).mix_buffer@ == mixed_all(old(self).slots(), old(self).slots().len()),
    {
        let mut n: usize = 0;
        while n < PLAYBUF_SIZE
            invariant
                self.wf(),
                *self == (AudioDriver { mix_buffer: self.mix_buffer, ..*old(self) }),
                n <= PLAYBUF_SIZE,
                forall|j: int| 0 <= j < n ==> self.mix_buffer@[j] == 0i32,
            decreases PLAYBUF_SIZE - n,
        {
            self.mix_buffer.set(n, 0i32);
            n = n + 1;
        }
        proof {
            assert(self.mix_buffer@ =~= silence());
        }
        let ghost olds = self.sounds@;
        let ghost old_slots = self.slots();
        proof {
            self.lemma_slots();
        }
        let mut i: usize = 0;
        while i < self.sounds.len()
            invariant
                self.wf(),
                i <= self.sounds.len(),
                self.sounds.len() == olds.len(),
                old_slots == old(self).slots(),
                olds.len() == old_slots.len(),
                forall|j: int| 0 <= j < olds.len() ==> #[trigger] old_slots[j] == (olds[j], self.music_roles@[j]),
                self.music_roles == old(self).music_roles,
                self.cur_bgm == old(self).cur_bgm,
                self.cur_playbuf == old(self).cur_playbuf,
                self.playbuf_0 == old(self).playbuf_0,
                self.playbuf_1 == old(self).playbuf_1,
                    forall|j: int| i <= j < olds.len() ==> #[trigger] self.sounds@[j] == olds[j],
                forall|j: int|
                    0 <= j < i ==> mixed_state(olds[j], #[trigger] self.sounds@[j], PLAYBUF_SIZE as nat),
                forall|j: int, s: Sound|
                    0 <= j < olds.len() && olds[j].plays(s) ==> #[trigger] self.sounds@[j].plays(s),
                self.mix_buffer@ == mixed_all(old_slots, i as nat),
            decreases olds.len() - i,
        {
            let mut s = self.sounds[i];
            let music = match self.cur_bgm {
                Some(m) => m == i,
                None => false,
            };
            proof {
                assert(music == self.music_roles@[i as int]);
                assert(old_slots[i as int] == (olds[i as int], self.music_roles@[i as int]));
            }
            let _ = s.mix_into(&mut self.mix_buffer, &mut self.block_buffer, music);
            let ghost pre = self.sounds@;
            self.sounds.set(i, s);
            proof {
                assert forall|j: int| 0 <= j < self.sounds.len() implies #[trigger] self.sounds@[j].wf() by {
                    if j != i {
                        assert(self.sounds@[j] == pre[j]);
                    }
                }
            }
            i = i + 1;
        }
        proof {
            self.lemma_slots();
            old(self).lemma_slots();
        }
    }

    /// Once per frame, after the tick: mixes every channel into the pair
    /// the hardware is not reading, then retires the channels that have
    /// finished, each by swapping the last channel into its place.
    pub fn mixer(&mut self)
        requires
            old(self).wf(),
        ensures
            final(self).wf(),
            final(self).cur() == old(self).cur(),
            final(self).buffers((1 - old(self).cur()) as nat) == old(self).buffers(
                (1 - old(self).cur()) as nat,
            ),
            final(self).buffers(old(self).cur()) == split(mixed_all(old(self).slots(), old(self).slots().len())),
            exists|mid: Seq<(RuntimeSoundData, bool)>|
                {
                    &&& mid.len() == old(self).slots().len()
                    &&& forall|j: int|
                        0 <= j < mid.len() ==> (#[trigger] mid[j]).1 == old(self).slots()[j].1 && mixed_state(
                            old(self).slots()[j].0,
                            mid[j].0,
                            PLAYBUF_SIZE as nat,
                        )
                    &&& final(self).slots() == retired(mid, 0)
                    &&& forall|x: (RuntimeSoundData, bool)|
                        #[trigger] final(self).slots().contains(x) <==> (mid.contains(x) && !x.0.is_finished())
                },
            forall|j: int|
                0 <= j < final(self).slots().len() ==> !(#[trigger] final(self).slots()[j]).0.is_finished(),
    {
        self.accumulate();
        if self.cur_playbuf == 0 {
            self.playbuf_0.fill(&self.mix_buffer);
        } else {
            self.playbuf_1.fill(&self.mix_buffer);
        }
        let ghost mid = self.slots();
        let ghost filled0 = self.buffers(0);
        let ghost filled1 = self.buffers(1);
        proof {
            lemma_retired_keeps_live(mid, 0);
        }
        let mut index: usize = 0;
        while index < self.sounds.len()
            invariant
                self.wf(),
                index <= self.sounds.len(),
                self.cur_playbuf == old(self).cur_playbuf,
                self.buffers(0) == filled0,
                self.buffers(1) == filled1,
                retired(mid, 0) == retired(self.slots(), index as int),
                forall|j: int| 0 <= j < index ==> !(#[trigger] self.sounds@[j]).is_finished(),
            decreases self.sounds.len() - index,
        {
            proof {
                self.lemma_slots();
            }
            if self.sounds[index].finished() {
                let ghost pre = *self;
                self.remove_sound(index);
                proof {
                    self.lemma_slots();
                    assert forall|j: int| 0 <= j < index implies !(#[trigger] self.sounds@[j]).is_finished() by {
                        assert(self.slots()[j].0 == self.sounds@[j]);
                        assert(pre.slots()[j].0 == pre.sounds@[j]);
                    }
                }
            } else {
                index = index + 1;
            }
        }
        proof {
            self.lemma_slots();
            assert forall|j: int| 0 <= j < self.slots().len() implies !(#[trigger] self.slots()[j]).0.is_finished() by {
                assert(self.slots()[j].0 == self.sounds@[j]);
            }
            assert(retired(self.slots(), index as int) == self.slots());
        }
    }
}

/// Whether every channel of the pool but `k` has finished.
pub open spec fn only_live(slots: Seq<(RuntimeSoundData, bool)>, k: int) -> bool {
    forall|j: int| 0 <= j < slots.len() && j != k ==> #[trigger] slots[j].0.is_finished()
}

/// An accumulation buffer of silence.
pub open spec fn silence() -> Seq<i32> {
    Seq::new(PLAYBUF_SIZE as nat, |i: int| 0i32)
}

/// What mixing channel `c` does to the buffer `buf`: a finished channel
/// leaves it alone; a raw channel adds (or writes) its next samples; a
/// stream adds (or writes) its next frame, and leaves the buffer alone when
/// that frame does not decode.
pub open spec fn contribution(c: RuntimeSoundData, buf: Seq<i32>, overwrite: bool) -> Seq<i32> {
    if c.is_finished() {
        buf
    } else {
        match c {
            RuntimeSoundData::RawPcm8(x) => mixed_samples(
                buf,
                x.samples(),
                x.mix_start() as int,
                x.mix_count(buf.len()) as int,
                overwrite,
            ),
            RuntimeSoundData::Flac(x) => match x.next_block(buf.len()) {
                Ok((vals, end)) => block_mixed(buf, vals, overwrite),
                Err(_) => buf,
            },
        }
    }
}

/// How a channel `before` stands after mixing into a buffer of `len`
/// samples: a raw channel has moved past the samples it produced; a stream
/// has moved past its next frame (and counted it), or has halted when that
/// frame does not decode; a finished channel is unchanged.
pub open spec fn mixed_state(before: RuntimeSoundData, after: RuntimeSoundData, len: nat) -> bool {
    &&& after.wf()
    &&& before.is_finished() ==> after == before
    &&& match before {
        RuntimeSoundData::RawPcm8(x) => match after {
            RuntimeSoundData::RawPcm8(y) => {
                &&& y.samples() == x.samples()
                &&& y.is_looping() == x.is_looping()
                &&& y.position() == x.mix_start() + x.mix_count(len)
            },
            RuntimeSoundData::Flac(_) => false,
        },
        RuntimeSoundData::Flac(x) => match after {
            RuntimeSoundData::Flac(y) => {
                &&& y.stream() == x.stream()
                &&& !before.is_finished() ==> match x.next_block(len) {
                    Ok((vals, end)) => {
                        &&& y.same_origin(x)
                        &&& y.cursor().pos() == end
                        &&& y.played() == (if x.played() >= x.declared_samples() {
                            0
                        } else {
                            x.played()
                        }) + vals.len()
                    },
                    Err(_) => y.remaining() == 0 && !y.is_looping(),
                }
            },
            RuntimeSoundData::RawPcm8(_) => false,
        },
    }
}

/// The pool `slots` after the retirement pass from index `i` on: each
/// finished channel is removed by swapping the last channel into its place,
/// and the channel moved there is examined next.
pub open spec fn retired(slots: Seq<(RuntimeSoundData, bool)>, i: int) -> Seq<(RuntimeSoundData, bool)>
    decreases slots.len() - i,
{
    if i < 0 || i >= slots.len() {
        slots
    } else if slots[i].0.is_finished() {
        retired(swap_removed(slots, i), i)
    } else {
        retired(slots, i + 1)
    }
}

/// The two output streams for an accumulation buffer.
pub open spec fn split(mix: Seq<i32>) -> (Seq<i8>, Seq<i8>) {
    (
        Seq::new(mix.len(), |i: int| high_byte(mix[i])),
        Seq::new(mix.len(), |i: int| high_byte_rounded(mix[i])),
    )
}

/// Eviction is deterministic: at most one channel is the eviction choice.
pub proof fn lemma_eviction_choice_unique(slots: Seq<(RuntimeSoundData, bool)>, k1: int, k2: int)
    requires
        is_eviction_choice(slots, k1),
        is_eviction_choice(slots, k2),
    ensures
        k1 == k2,
{
    if k1 < k2 {
        assert(slots[k2].0.remaining() < slots[k1].0.remaining());
    } else if k2 < k1 {
        assert(slots[k1].0.remaining() < slots[k2].0.remaining());
    }
}

/// In every reachable state of the engine the recorded music index, when
/// present, designates the one channel that was admitted in the music role,
/// and a channel in that role is always the recorded one.
pub proof fn lemma_music_slot_tracks_music_role(d: AudioDriver)
    requires
        d.wf(),
    ensures
        d.music_slot() matches Some(i) ==> i < d.slots().len() && d.slots()[i as int].1,
        forall|i: int| 0 <= i < d.slots().len() && (#[trigger] d.slots()[i]).1 ==> d.music_slot() == Some(i as usize),
{
    d.lemma_slots();
}

/// The accumulation buffer after the first `n` channels of `slots` have
/// mixed, in pool order, into silence; the channel in the music role writes
/// over the buffer, the others add to it.
pub open spec fn mixed_all(slots: Seq<(RuntimeSoundData, bool)>, n: nat) -> Seq<i32>
    decreases n,
{
    if n == 0 {
        silence()
    } else {
        contribution(slots[n - 1].0, mixed_all(slots, (n - 1) as nat), slots[n - 1].1)
    }
}

proof fn lemma_only_live_prefix(slots: Seq<(RuntimeSoundData, bool)>, k: int, n: nat)
    requires
        0 <= k < slots.len(),
        n <= slots.len(),
        only_live(slots, k),
    ensures
        mixed_all(slots, n) == if n > k {
            contribution(slots[k].0, silence(), slots[k].1)
        } else {
            silence()
        },
    decreases n,
{
    if n > 0 {
        lemma_only_live_prefix(slots, k, (n - 1) as nat);
        if n - 1 != k {
            assert(slots[n - 1].0.is_finished());
        }
    }
}

/// A live channel mixed together with any number of finished channels
/// produces the same accumulation as that channel mixed alone.
pub proof fn lemma_finished_channels_add_nothing(slots: Seq<(RuntimeSoundData, bool)>, k: int)
    requires
        0 <= k < slots.len(),
        only_live(slots, k),
    ensures
        mixed_all(slots, slots.len()) == mixed_all(seq![slots[k]], 1),
{
    lemma_only_live_prefix(slots, k, slots.len());
    let single = seq![slots[k]];
    lemma_only_live_prefix(single, 0, 1);
}

/// The retirement pass removes exactly the finished channels: a channel is
/// in the pool afterwards if and only if it was in it before and has not
/// finished.
pub proof fn lemma_retired_keeps_live(s: Seq<(RuntimeSoundData, bool)>, i: int)
    requires
        0 <= i <= s.len(),
        forall|j: int| 0 <= j < i ==> !(#[trigger] s[j]).0.is_finished(),
    ensures
        forall|x: (RuntimeSoundData, bool)|
            #[trigger] retired(s, i).contains(x) <==> (s.contains(x) && !x.0.is_finished()),
    decreases s.len() - i,
{
    if i >= s.len() {
        assert(retired(s, i) == s);
        assert forall|x: (RuntimeSoundData, bool)| #[trigger] retired(s, i).contains(x) implies !x.0.is_finished() by {
            let k = choose|k: int| 0 <= k < s.len() && s[k] == x;
        }
    } else if s[i].0.is_finished() {
        let t = swap_removed(s, i);
        assert(retired(s, i) == retired(t, i));
        assert forall|j: int| 0 <= j < i implies !(#[trigger] t[j]).0.is_finished() by {
            assert(t[j] == s[j]);
        }
        lemma_retired_keeps_live(t, i);
        assert forall|x: (RuntimeSoundData, bool)| !x.0.is_finished() implies (t.contains(x) <==> s.contains(x)) by {
            if t.contains(x) {
                let k = choose|k: int| 0 <= k < t.len() && t[k] == x;
                if k == i {
                    assert(s[s.len() - 1] == x);
                } else {
                    assert(s[k] == x);
                }
            }
            if s.contains(x) {
                let k = choose|k: int| 0 <= k < s.len() && s[k] == x;
                if k == s.len() - 1 {
                    assert(t[i] == x);
                } else {
                    assert(t[k] == x);
                }
            }
        }
    } else {
        assert(retired(s, i) == retired(s, i + 1));
        lemma_retired_keeps_live(s, i + 1);
    }
}

} // verus!
