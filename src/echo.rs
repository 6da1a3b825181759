use vstd::prelude::*;
use vstd::arithmetic::div_mod::{lemma_fundamental_div_mod, lemma_fundamental_div_mod_converse};
use crate::assoc::{assoc, keys_unique, lemma_assoc_absent, lemma_assoc_at, lemma_assoc_push, lemma_assoc_update};

verus! {

/// One transmit IQ sample as the host sent it: raw 16-bit I and Q.
pub type TxSample = (i16, i16);

/// Default cap on a recording, in seconds.
pub const DEFAULT_MAX_DURATION: u32 = 10;

/// What an echo buffer holds.
pub struct EchoView {
    /// The committed recording at each transmit frequency.
    pub recordings: Map<u32, Seq<TxSample>>,
    /// The playback position within each recording.
    pub positions: Map<u32, nat>,
    /// Samples fed since recording last started.
    pub staged: Seq<TxSample>,
    /// The transmit frequency the staged samples belong to.
    pub staged_freq: u32,
    /// Whether samples are being recorded.
    pub recording: bool,
    /// The longest recording kept, in samples.
    pub max_samples: nat,
}

impl EchoView {
    /// The state after committing the staged samples: a non-empty staging
    /// area at a non-zero frequency becomes, cut to `max_samples`, the
    /// recording at that frequency, played back from its start.
    pub open spec fn commit(self) -> EchoView {
        let kept = self.staged.take(
            if self.staged.len() <= self.max_samples { self.staged.len() as int } else { self.max_samples as int },
        );
        if self.staged.len() == 0 || self.staged_freq == 0 || kept.len() == 0 {
            EchoView { staged: Seq::empty(), ..self }
        } else {
            EchoView {
                recordings: self.recordings.insert(self.staged_freq, kept),
                positions: self.positions.insert(self.staged_freq, 0),
                staged: Seq::empty(),
                ..self
            }
        }
    }

    /// The state after transmit starts at `tx_freq`.
    pub open spec fn start(self, tx_freq: u32) -> EchoView {
        let base = if self.recording { self.commit() } else { self };
        EchoView { staged: Seq::empty(), staged_freq: tx_freq, recording: true, ..base }
    }

    /// The state after `samples` arrive.
    pub open spec fn feed(self, samples: Seq<TxSample>) -> EchoView {
        if self.recording {
            EchoView { staged: self.staged + samples, ..self }
        } else {
            self
        }
    }

    /// The state after transmit stops.
    pub open spec fn stop(self) -> EchoView {
        if self.recording {
            EchoView { recording: false, ..self.commit() }
        } else {
            self
        }
    }
}

/// `n` samples of `rec` read circularly from position `pos`.
pub open spec fn circular(rec: Seq<TxSample>, pos: nat, n: nat) -> Seq<TxSample> {
    Seq::new(n, |k: int| rec[(pos + k) % (rec.len() as int)])
}

/// Whether a recording at `rec_freq` falls inside the band of a receiver
/// tuned to `rx_freq`: the offset is at most half the sample rate.
pub open spec fn spec_in_band(rx_freq: u32, rec_freq: u32, sample_rate: u32) -> bool {
    let d = rx_freq as int - rec_freq as int;
    2 * (if d < 0 { -d } else { d }) <= sample_rate as int
}

pub fn in_band(rx_freq: u32, rec_freq: u32, sample_rate: u32) -> (r: bool)
    ensures
        r == spec_in_band(rx_freq, rec_freq, sample_rate),
{
    let d: u64 = if rx_freq >= rec_freq {
        (rx_freq - rec_freq) as u64
    } else {
        (rec_freq - rx_freq) as u64
    };
    2 * d <= sample_rate as u64
}

/// Records transmitted IQ and plays it back per transmit frequency.
pub struct EchoBuffer {
    sample_rate: u32,
    max_duration: u32,
    freqs: Vec<u32>,
    echoes: Vec<Vec<TxSample>>,
    playback_pos: Vec<usize>,
    recording: Vec<TxSample>,
    recording_freq: u32,
    is_recording: bool,
}

impl View for EchoBuffer {
    type V = EchoView;

    closed spec fn view(&self) -> EchoView {
        EchoView {
            recordings: assoc(self.freqs@, self.echoes@.map_values(|v: Vec<TxSample>| v@)),
            positions: assoc(self.freqs@, self.playback_pos@.map_values(|p: usize| p as nat)),
            staged: self.recording@,
            staged_freq: self.recording_freq,
            recording: self.is_recording,
            max_samples: self.sample_rate as nat * self.max_duration as nat,
        }
    }
}

impl EchoBuffer {
    /// The per-frequency lists agree in length, frequencies are distinct,
    /// and every position lies inside its recording.
    pub closed spec fn wf(&self) -> bool {
        &&& self.echoes@.len() == self.freqs@.len()
        &&& self.playback_pos@.len() == self.freqs@.len()
        &&& keys_unique(self.freqs@)
        &&& forall|i: int| 0 <= i < self.freqs@.len() ==> {
            &&& (#[trigger] self.echoes@[i])@.len() > 0
            &&& self.playback_pos@[i] < self.echoes@[i]@.len()
        }
    }

    /// The sample rate that caps a recording's length.
    pub closed spec fn spec_sample_rate(&self) -> u32 {
        self.sample_rate
    }

    /// The cap on a recording's length, in seconds.
    pub closed spec fn spec_max_duration(&self) -> u32 {
        self.max_duration
    }

    pub fn new(sample_rate: u32) -> (r: Self)
        ensures
            r.wf(),
            r.spec_sample_rate() == sample_rate,
            r.spec_max_duration() == DEFAULT_MAX_DURATION,
            r@.recordings == Map::<u32, Seq<TxSample>>::empty(),
            r@.positions == Map::<u32, nat>::empty(),
            r@.staged == Seq::<TxSample>::empty(),
            r@.staged_freq == 0,
            !r@.recording,
            r@.max_samples == sample_rate as nat * DEFAULT_MAX_DURATION as nat,
    {
        let r = EchoBuffer {
            sample_rate,
            max_duration: DEFAULT_MAX_DURATION,
            freqs: Vec::new(),
            echoes: Vec::new(),
            playback_pos: Vec::new(),
            recording: Vec::new(),
            recording_freq: 0,
            is_recording: false,
        };
        assert(r@.recordings =~= Map::<u32, Seq<TxSample>>::empty());
        assert(r@.positions =~= Map::<u32, nat>::empty());
        r
    }

    pub fn sample_rate(&self) -> (r: u32)
        ensures
            r == self.spec_sample_rate(),
    {
        self.sample_rate
    }

    pub fn max_duration(&self) -> (r: u32)
        ensures
            r == self.spec_max_duration(),
    {
        self.max_duration
    }

    /// Stores `buf` as the recording at `freq`, played back from its start.
    fn store(&mut self, freq: u32, buf: Vec<TxSample>)
        requires
            old(self).wf(),
            buf@.len() > 0,
        ensures
            final(self).wf(),
            final(self)@ == (EchoView {
                recordings: old(self)@.recordings.insert(freq, buf@),
                positions: old(self)@.positions.insert(freq, 0),
                ..old(self)@
            }),
            final(self).spec_sample_rate() == old(self).spec_sample_rate(),
            final(self).spec_max_duration() == old(self).spec_max_duration(),
    {
        let ghost keys = self.freqs@;
        let ghost recs = self.echoes@.map_values(|v: Vec<TxSample>| v@);
        let ghost poss = self.playback_pos@.map_values(|p: usize| p as nat);
        let n = self.freqs.len();
        let mut i: usize = 0;
        while i < n
            invariant
                self == old(self),
                old(self).wf(),
                buf@.len() > 0,
                keys == self.freqs@,
                recs == self.echoes@.map_values(|v: Vec<TxSample>| v@),
                poss == self.playback_pos@.map_values(|p: usize| p as nat),
                n == keys.len(),
                i <= n,
                forall|j: int| 0 <= j < i ==> keys[j] != freq,
            decreases n - i,
        {
            if self.freqs[i] == freq {
                proof {
                    lemma_assoc_update(keys, recs, i as int, buf@);
                    lemma_assoc_update(keys, poss, i as int, 0nat);
                }
                self.echoes[i] = buf;
                self.playback_pos[i] = 0;
                assert(forall|j: int| 0 <= j < self.freqs@.len() ==> {
                    &&& (#[trigger] self.echoes@[j])@.len() > 0
                    &&& self.playback_pos@[j] < self.echoes@[j]@.len()
                }) by {
                    assert(forall|j: int| 0 <= j < self.freqs@.len() && j != i ==> self.echoes@[j] == old(self).echoes@[j]);
                }
                assert(self.echoes@.map_values(|v: Vec<TxSample>| v@) =~= recs.update(i as int, buf@));
                assert(self.playback_pos@.map_values(|p: usize| p as nat) =~= poss.update(i as int, 0nat));
                assert(self@ == (EchoView {
                    recordings: old(self)@.recordings.insert(freq, buf@),
                    positions: old(self)@.positions.insert(freq, 0),
                    ..old(self)@
                }));
                return;
            }
            i = i + 1;
        }
        proof {
            lemma_assoc_push(keys, recs, freq, buf@);
            lemma_assoc_push(keys, poss, freq, 0nat);
        }
        let ghost b = buf@;
        self.freqs.push(freq);
        self.echoes.push(buf);
        self.playback_pos.push(0);
        assert(self.echoes@.map_values(|v: Vec<TxSample>| v@) =~= recs.push(b));
        assert(self.playback_pos@.map_values(|p: usize| p as nat) =~= poss.push(0nat));
        assert(forall|j: int| 0 <= j < self.freqs@.len() ==> {
            &&& (#[trigger] self.echoes@[j])@.len() > 0
            &&& self.playback_pos@[j] < self.echoes@[j]@.len()
        });
    }

    /// Moves the staged samples into the recording at their frequency.
    fn commit(&mut self)
        requires
            old(self).wf(),
        ensures
            final(self).wf(),
            final(self)@ == old(self)@.commit(),
            final(self).spec_sample_rate() == old(self).spec_sample_rate(),
            final(self).spec_max_duration() == old(self).spec_max_duration(),
    {
        if self.recording.len() == 0 {
            assert(self@.staged =~= Seq::<TxSample>::empty());
            return;
        }
        let freq = self.recording_freq;
        if freq == 0 {
            self.recording.clear();
            return;
        }
        let rate = self.sample_rate as u64;
        let secs = self.max_duration as u64;
        assert(rate * secs <= 0xFFFF_FFFE_0000_0001) by (nonlinear_arith)
            requires
                rate <= 0xFFFF_FFFF,
                secs <= 0xFFFF_FFFF,
        ;
        let max_samples: u64 = rate * secs;
        let mut buf: Vec<TxSample> = Vec::new();
        core::mem::swap(&mut buf, &mut self.recording);
        if buf.len() as u64 > max_samples {
            buf.truncate(max_samples as usize);
        }
        assert(buf@ =~= old(self)@.staged.take(
            if old(self)@.staged.len() <= old(self)@.max_samples { old(self)@.staged.len() as int } else { old(self)@.max_samples as int },
        ));
        if buf.len() == 0 {
            return;
        }
        self.store(freq, buf);
    }

    /// Starts a recording at `tx_freq`, committing one already in progress.
    pub fn start_recording(&mut self, tx_freq: u32)
        requires
            old(self).wf(),
        ensures
            final(self).wf(),
            final(self)@ == old(self)@.start(tx_freq),
            final(self).spec_sample_rate() == old(self).spec_sample_rate(),
            final(self).spec_max_duration() == old(self).spec_max_duration(),
    {
        if self.is_recording {
            self.commit();
        }
        self.recording.clear();
        self.recording_freq = tx_freq;
        self.is_recording = true;
        assert(self@ =~= old(self)@.start(tx_freq));
    }

    /// Appends `samples` to the staging area while recording.
    pub fn feed(&mut self, samples: &[TxSample])
        requires
            old(self).wf(),
        ensures
            final(self).wf(),
            final(self)@ == old(self)@.feed(samples@),
            final(self).spec_sample_rate() == old(self).spec_sample_rate(),
            final(self).spec_max_duration() == old(self).spec_max_duration(),
    {
        if !self.is_recording || samples.len() == 0 {
            assert(samples@.len() == 0 ==> old(self)@.staged + samples@ =~= old(self)@.staged);
            return;
        }
        let mut k: usize = 0;
        while k < samples.len()
            invariant
                self.wf(),
                self.is_recording,
                k <= samples@.len(),
                self@ == (EchoView { staged: old(self)@.staged + samples@.take(k as int), ..old(self)@ }),
                self.spec_sample_rate() == old(self).spec_sample_rate(),
                self.spec_max_duration() == old(self).spec_max_duration(),
            decreases samples@.len() - k,
        {
            self.recording.push(samples[k]);
            assert(samples@.take(k + 1) =~= samples@.take(k as int).push(samples@[k as int]));
            k = k + 1;
            assert(self@.staged =~= old(self)@.staged + samples@.take(k as int));
        }
        assert(samples@.take(k as int) =~= samples@);
    }

    /// Ends the recording in progress, committing it.
    pub fn stop_recording(&mut self)
        requires
            old(self).wf(),
        ensures
            final(self).wf(),
            final(self)@ == old(self)@.stop(),
            final(self).spec_sample_rate() == old(self).spec_sample_rate(),
            final(self).spec_max_duration() == old(self).spec_max_duration(),
    {
        if self.is_recording {
            self.commit();
            self.is_recording = false;
        }
    }

    /// The frequencies that hold a recording, each once.
    pub fn recorded_frequencies(&self) -> (r: Vec<u32>)
        requires
            self.wf(),
        ensures
            keys_unique(r@),
            forall|f: u32| r@.contains(f) <==> self@.recordings.contains_key(f),
    {
        let ghost keys = self.freqs@;
        let ghost recs = self.echoes@.map_values(|v: Vec<TxSample>| v@);
        let mut r: Vec<u32> = Vec::new();
        let mut i: usize = 0;
        while i < self.freqs.len()
            invariant
                self.wf(),
                keys == self.freqs@,
                i <= keys.len(),
                r@ == keys.take(i as int),
            decreases keys.len() - i,
        {
            r.push(self.freqs[i]);
            i = i + 1;
            assert(r@ =~= keys.take(i as int));
        }
        assert(r@ =~= keys);
        assert forall|f: u32| r@.contains(f) <==> self@.recordings.contains_key(f) by {
            if exists|j: int| 0 <= j < keys.len() && keys[j] == f {
                let j = choose|j: int| 0 <= j < keys.len() && keys[j] == f;
                lemma_assoc_at(keys, recs, j);
            } else {
                lemma_assoc_absent(keys, recs, f);
            }
        }
        r
    }

    /// Reads `n` samples of the recording at `freq` circularly from its
    /// playback position and advances the position past them; `None`, with
    /// nothing changed, where no recording exists at `freq`.
    pub fn take_chunk(&mut self, freq: u32, n: usize) -> (r: Option<Vec<TxSample>>)
        requires
            old(self).wf(),
        ensures
            final(self).wf(),
            final(self).spec_sample_rate() == old(self).spec_sample_rate(),
            final(self).spec_max_duration() == old(self).spec_max_duration(),
            match r {
                None => !old(self)@.recordings.contains_key(freq) && final(self)@ == old(self)@,
                Some(chunk) => {
                    let rec = old(self)@.recordings[freq];
                    let pos = old(self)@.positions[freq];
                    &&& old(self)@.recordings.contains_key(freq)
                    &&& chunk@ == circular(rec, pos, n as nat)
                    &&& final(self)@ == (EchoView {
                        positions: old(self)@.positions.insert(freq, ((pos + n) % (rec.len() as int)) as nat),
                        ..old(self)@
                    })
                },
            },
    {
        let ghost keys = self.freqs@;
        let ghost recs = self.echoes@.map_values(|v: Vec<TxSample>| v@);
        let ghost poss = self.playback_pos@.map_values(|p: usize| p as nat);
        let count = self.freqs.len();
        let mut i: usize = 0;
        while i < count
            invariant
                self == old(self),
                old(self).wf(),
                keys == self.freqs@,
                recs == self.echoes@.map_values(|v: Vec<TxSample>| v@),
                poss == self.playback_pos@.map_values(|p: usize| p as nat),
                count == keys.len(),
                i <= count,
                forall|j: int| 0 <= j < i ==> keys[j] != freq,
            decreases count - i,
        {
            if self.freqs[i] == freq {
                proof {
                    lemma_assoc_at(keys, recs, i as int);
                    lemma_assoc_at(keys, poss, i as int);
                }
                let ghost rec = recs[i as int];
                let ghost pos = poss[i as int];
                let len = self.echoes[i].len();
                let mut p: usize = self.playback_pos[i];
                let mut chunk: Vec<TxSample> = Vec::new();
                let mut k: usize = 0;
                proof {
                    lemma_fundamental_div_mod_converse(pos as int, len as int, 0, pos as int);
                }
                while k < n
                    invariant
                        self == old(self),
                        rec == self.echoes@[i as int]@,
                        len == rec.len(),
                        len > 0,
                        i < self.echoes@.len(),
                        p < len,
                        k <= n,
                        p as int == (pos + k) % (len as int),
                        chunk@ == circular(rec, pos, k as nat),
                    decreases n - k,
                {
                    chunk.push(self.echoes[i][p]);
                    proof {
                        let x = pos + k;
                        lemma_fundamental_div_mod(x, len as int);
                        if p + 1 < len {
                            lemma_fundamental_div_mod_converse(x + 1, len as int, x / (len as int), p + 1);
                        } else {
                            let q = x / (len as int);
                            assert((q + 1) * (len as int) == q * (len as int) + len) by (nonlinear_arith);
                            lemma_fundamental_div_mod_converse(x + 1, len as int, q + 1, 0);
                        }
                    }
                    p = p + 1;
                    if p == len {
                        p = 0;
                    }
                    k = k + 1;
                    assert(chunk@ =~= circular(rec, pos, k as nat));
                }
                proof {
                    lemma_assoc_update(keys, poss, i as int, p as nat);
                }
                self.playback_pos[i] = p;
                assert(self.playback_pos@.map_values(|q: usize| q as nat) =~= poss.update(i as int, p as nat));
                assert(self.echoes@.map_values(|v: Vec<TxSample>| v@) =~= recs);
                return Some(chunk);
            }
            i = i + 1;
        }
        proof {
            lemma_assoc_absent(keys, recs, freq);
        }
        None
    }
}

/// Recording law: starting transmit at a non-zero frequency `f`, feeding a
/// non-empty run of samples and stopping leaves a recording at `f` that holds
/// the first min(K, cap) of those samples, played back from its start.
pub proof fn lemma_record_then_stop(e: EchoView, f: u32, samples: Seq<TxSample>)
    requires
        f > 0,
        samples.len() > 0,
        e.max_samples > 0,
    ensures
        ({
            let done = e.start(f).feed(samples).stop();
            let k = if samples.len() <= e.max_samples { samples.len() } else { e.max_samples };
            &&& done.recordings.contains_key(f)
            &&& done.recordings[f].len() == k
            &&& done.recordings[f] == samples.take(k as int)
            &&& done.positions[f] == 0
            &&& !done.recording
        }),
{
    let fed = e.start(f).feed(samples);
    assert(fed.staged =~= samples);
}

} // verus!
