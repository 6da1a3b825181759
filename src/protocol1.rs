use vstd::prelude::*;
use crate::codec::{iq24_bytes, pack_iq_24bit_into, tx_samples, unpack_tx_iq_16bit, IqSample};
use crate::echo::{lemma_record_then_stop, EchoBuffer, EchoView, TxSample};
use crate::radio::{code_to_sample_rate, rate_of_code, RadioState};

verus! {

/// UDP port on which the radio listens.
pub const PORT: u16 = 1024;

/// Size of a data packet.
pub const PACKET_SIZE: usize = 1032;

/// Size of a sub-frame.
pub const SUBFRAME_SIZE: usize = 512;

/// Size of a discovery reply.
pub const DISCOVERY_REPLY_SIZE: usize = 60;

/// Four big-endian bytes read as an unsigned 32-bit integer.
pub open spec fn be_u32(b0: u8, b1: u8, b2: u8, b3: u8) -> u32 {
    (b0 as int * 0x100_0000 + b1 as int * 0x1_0000 + b2 as int * 0x100 + b3 as int) as u32
}

fn from_be4(b0: u8, b1: u8, b2: u8, b3: u8) -> (r: u32)
    ensures
        r == be_u32(b0, b1, b2, b3),
{
    b0 as u32 * 0x100_0000 + b1 as u32 * 0x1_0000 + b2 as u32 * 0x100 + b3 as u32
}

/// The part of the radio that inbound control words and transmit IQ change.
pub struct ControlView {
    pub sample_rate: u32,
    pub nddc: u8,
    pub rx_frequencies: Seq<u32>,
    pub tx_frequency: u32,
    pub tx_drive: u8,
    pub ptt: bool,
    pub echo: Option<EchoView>,
}

/// What a MOX bit does to the echo recorder: a rise starts a recording at
/// the transmit frequency, a fall stops it.
pub open spec fn echo_after_mox(echo: Option<EchoView>, was: bool, mox: bool, tx_freq: u32) -> Option<EchoView> {
    match echo {
        Some(e) => Some(
            if mox && !was {
                e.start(tx_freq)
            } else if !mox && was {
                e.stop()
            } else {
                e
            },
        ),
        None => None,
    }
}

impl ControlView {
    /// The effect of one set of control bytes C0..C4. The DDC count is taken
    /// as sent, 1..=8, without clamping it to the hardware's maximum.
    pub open spec fn apply(self, c0: u8, c1: u8, c2: u8, c3: u8, c4: u8) -> ControlView {
        let mox = c0 & 1 != 0;
        let addr = c0 & 0xFE;
        let base = ControlView {
            ptt: mox,
            echo: echo_after_mox(self.echo, self.ptt, mox, self.tx_frequency),
            ..self
        };
        if addr == 0x00 {
            ControlView {
                sample_rate: match rate_of_code(c1 & 3) {
                    Some(rate) => rate,
                    None => base.sample_rate,
                },
                nddc: (((c4 >> 3u8) & 7) + 1) as u8,
                ..base
            }
        } else if addr == 0x02 {
            ControlView { tx_frequency: be_u32(c1, c2, c3, c4), ..base }
        } else if 0x04 <= addr < 0x12 && addr % 2 == 0 {
            ControlView {
                rx_frequencies: base.rx_frequencies.update((addr - 0x04) / 2, be_u32(c1, c2, c3, c4)),
                ..base
            }
        } else if addr == 0x12 {
            ControlView { tx_drive: c1, ..base }
        } else {
            base
        }
    }

    /// The effect of one inbound sub-frame: skipped without the sync bytes;
    /// else its control bytes apply and, while transmitting with an echo
    /// recorder, its 63 transmit samples are fed to the recorder.
    pub open spec fn subframe(self, sf: Seq<u8>) -> ControlView {
        if sf[0] == 0x7F && sf[1] == 0x7F && sf[2] == 0x7F {
            let a = self.apply(sf[3], sf[4], sf[5], sf[6], sf[7]);
            match a.echo {
                Some(e) => if a.ptt {
                    ControlView { echo: Some(e.feed(tx_samples(sf.subrange(8, 512)))), ..a }
                } else {
                    a
                },
                None => a,
            }
        } else {
            self
        }
    }

    /// The effect of one inbound data packet: nothing if it is shorter than
    /// a full packet, else its two sub-frames in order.
    pub open spec fn host_data(self, data: Seq<u8>) -> ControlView {
        if data.len() < PACKET_SIZE {
            self
        } else {
            self.subframe(data.subrange(8, 520)).subframe(data.subrange(520, 1032))
        }
    }
}

/// The Protocol 1 engine: radio state, optional echo recorder and the
/// rotating telemetry address.
pub struct Protocol1Server {
    pub state: RadioState,
    pub echo: Option<EchoBuffer>,
    pub control_idx: u8,
}

/// What the engine asks of its transport after one inbound datagram.
pub enum Action {
    /// Not a Protocol 1 datagram; nothing changed.
    Dropped,
    /// A well-formed datagram of a type or request not handled; nothing changed.
    Ignored,
    /// Send this discovery reply to the sender.
    Reply(Vec<u8>),
    /// Streaming was requested: latch the sender as client and stream. A
    /// repeated request only moves the client; sequence numbers carry on.
    Start,
    /// Streaming was stopped.
    Stop,
    /// Host data was processed: latch the sender as client.
    HostData,
}

impl Protocol1Server {
    /// Index of the next telemetry address, in 0..4.
    pub open spec fn spec_control_idx(&self) -> nat {
        self.control_idx as nat
    }

    pub open spec fn echo_view(&self) -> Option<EchoView> {
        match self.echo {
            Some(e) => Some(e@),
            None => None,
        }
    }

    pub open spec fn wf(&self) -> bool {
        &&& self.state.wf()
        &&& self.control_idx < 4
        &&& match self.echo {
            Some(e) => e.wf(),
            None => true,
        }
    }

    pub open spec fn control_view(&self) -> ControlView {
        ControlView {
            sample_rate: self.state.sample_rate,
            nddc: self.state.nddc,
            rx_frequencies: self.state.rx_frequencies@,
            tx_frequency: self.state.tx_frequency,
            tx_drive: self.state.tx_drive,
            ptt: self.state.ptt,
            echo: self.echo_view(),
        }
    }

    /// `self` and `other` agree on all that control words cannot change.
    pub open spec fn same_identity(&self, other: &Protocol1Server) -> bool {
        &&& self.state.hw == other.state.hw
        &&& self.state.mac == other.state.mac
        &&& self.state.firmware_version == other.state.firmware_version
        &&& self.state.mercury_versions == other.state.mercury_versions
        &&& self.state.penny_version == other.state.penny_version
        &&& self.state.metis_version == other.state.metis_version
        &&& self.state.running == other.state.running
        &&& self.state.seq.numbers() == other.state.seq.numbers()
        &&& self.spec_control_idx() == other.spec_control_idx()
        &&& self.echo.is_some() == other.echo.is_some()
        &&& match (self.echo, other.echo) {
            (Some(a), Some(b)) => a.spec_sample_rate() == b.spec_sample_rate() && a.spec_max_duration()
                == b.spec_max_duration(),
            _ => true,
        }
    }

    pub fn new(state: RadioState, echo: Option<EchoBuffer>) -> (r: Self)
        requires
            state.wf(),
            match echo {
                Some(e) => e.wf(),
                None => true,
            },
        ensures
            r.wf(),
            r.state == state,
            r.echo == echo,
            r.spec_control_idx() == 0,
    {
        Protocol1Server { state, echo, control_idx: 0 }
    }

    /// Applies one set of control bytes C0..C4 from the host.
    pub fn process_control(&mut self, c0: u8, c1: u8, c2: u8, c3: u8, c4: u8)
        requires
            old(self).wf(),
        ensures
            final(self).wf(),
            final(self).same_identity(old(self)),
            final(self).control_view() == old(self).control_view().apply(c0, c1, c2, c3, c4),
    {
        let mox = c0 & 1 != 0;
        let addr = c0 & 0xFE;
        if mox != self.state.ptt {
            self.state.ptt = mox;
            let tx_freq = self.state.tx_frequency;
            match &mut self.echo {
                Some(echo) => {
                    if mox {
                        echo.start_recording(tx_freq);
                    } else {
                        echo.stop_recording();
                    }
                },
                None => {},
            }
        }
        if addr == 0x00 {
            let rate_code = c1 & 0x03;
            match code_to_sample_rate(rate_code) {
                Some(rate) => {
                    if self.state.sample_rate != rate {
                        self.state.sample_rate = rate;
                    }
                },
                None => {},
            }
            let field = (c4 >> 3u8) & 0x07;
            assert(field <= 7) by (bit_vector)
                requires
                    field == (c4 >> 3u8) & 0x07,
            ;
            let nddc = field + 1;
            if nddc != self.state.nddc {
                self.state.nddc = nddc;
            }
        } else if addr == 0x02 {
            let freq = from_be4(c1, c2, c3, c4);
            if self.state.tx_frequency != freq {
                self.state.tx_frequency = freq;
            }
        } else if 0x04 <= addr && addr < 0x12 && addr % 2 == 0 {
            let ddc_idx = ((addr - 0x04) / 2) as usize;
            let freq = from_be4(c1, c2, c3, c4);
            if ddc_idx < 12 && self.state.rx_frequencies[ddc_idx] != freq {
                self.state.rx_frequencies[ddc_idx] = freq;
            }
        } else if addr == 0x12 {
            if self.state.tx_drive != c1 {
                self.state.tx_drive = c1;
            }
        }
        assert(self.control_view().rx_frequencies =~= old(self).control_view().apply(c0, c1, c2, c3, c4).rx_frequencies);
    }

    fn handle_subframe(&mut self, data: &[u8], offset: usize)
        requires
            old(self).wf(),
            offset + 512 <= data@.len(),
        ensures
            final(self).wf(),
            final(self).same_identity(old(self)),
            final(self).control_view() == old(self).control_view().subframe(
                data@.subrange(offset as int, offset + 512),
            ),
    {
        let ghost sf = data@.subrange(offset as int, offset + 512);
        if data[offset] != 0x7F || data[offset + 1] != 0x7F || data[offset + 2] != 0x7F {
            return;
        }
        self.process_control(data[offset + 3], data[offset + 4], data[offset + 5], data[offset + 6], data[offset + 7]);
        if self.state.ptt {
            match &mut self.echo {
                Some(echo) => {
                    let tx_data = &data[offset + 8..offset + 512];
                    assert(tx_data@ == sf.subrange(8, 512));
                    let tx_iq = unpack_tx_iq_16bit(tx_data);
                    echo.feed(tx_iq.as_slice());
                },
                None => {},
            }
        }
    }

    /// Processes an inbound data packet: control words and, while
    /// transmitting, transmit IQ of both sub-frames.
    pub fn handle_host_data(&mut self, data: &[u8])
        requires
            old(self).wf(),
        ensures
            final(self).wf(),
            final(self).same_identity(old(self)),
            final(self).control_view() == old(self).control_view().host_data(data@),
    {
        if data.len() < PACKET_SIZE {
            return;
        }
        self.handle_subframe(data, 8);
        self.handle_subframe(data, 520);
    }

    /// Builds the 60-byte reply to a discovery request.
    pub fn build_discovery_response(&self) -> (r: Vec<u8>)
        ensures
            r@ == discovery_reply(self.state),
    {
        let s = &self.state;
        let mut buf: Vec<u8> = Vec::new();
        buf.push(0xEF);
        buf.push(0xFE);
        buf.push(0x02);
        buf.push(s.mac[0]);
        buf.push(s.mac[1]);
        buf.push(s.mac[2]);
        buf.push(s.mac[3]);
        buf.push(s.mac[4]);
        buf.push(s.mac[5]);
        buf.push(s.firmware_version);
        buf.push(s.hw.code());
        buf.push(0);
        buf.push(0);
        buf.push(0);
        buf.push(s.mercury_versions[0]);
        buf.push(s.mercury_versions[1]);
        buf.push(s.mercury_versions[2]);
        buf.push(s.mercury_versions[3]);
        buf.push(s.penny_version);
        buf.push(s.metis_version);
        buf.push(s.nddc);
        let ghost head = buf@;
        while buf.len() < DISCOVERY_REPLY_SIZE
            invariant
                21 <= buf@.len() <= 60,
                buf@ == head + Seq::new((buf@.len() - 21) as nat, |i: int| 0u8),
            decreases 60 - buf@.len(),
        {
            buf.push(0);
            assert(buf@ =~= head + Seq::new((buf@.len() - 21) as nat, |i: int| 0u8));
        }
        assert(buf@ =~= discovery_reply(self.state));
        buf
    }

    /// Handles one inbound datagram and says what the transport must do.
    pub fn handle_datagram(&mut self, data: &[u8]) -> (r: Action)
        requires
            old(self).wf(),
        ensures
            final(self).wf(),
            !is_protocol1(data@) ==> r is Dropped && *final(self) == *old(self),
            is_protocol1(data@) ==> match r {
                Action::Dropped => false,
                Action::Reply(reply) => data@[2] == 0x02 && reply@ == discovery_reply(old(self).state)
                    && *final(self) == *old(self),
                Action::Start => data@[2] == 0x04 && data@[3] == 0x01 && *final(self) == (Protocol1Server {
                    state: RadioState { running: true, ..old(self).state },
                    ..*old(self)
                }),
                Action::Stop => data@[2] == 0x04 && data@[3] == 0x00 && *final(self) == (Protocol1Server {
                    state: RadioState { running: false, ..old(self).state },
                    ..*old(self)
                }),
                Action::HostData => data@[2] == 0x01 && final(self).same_identity(old(self))
                    && final(self).control_view() == old(self).control_view().host_data(data@),
                Action::Ignored => data@[2] != 0x01 && data@[2] != 0x02 && (data@[2] == 0x04 ==> data@[3]
                    != 0x00 && data@[3] != 0x01) && *final(self) == *old(self),
            },
    {
        if data.len() < 4 || data[0] != 0xEF || data[1] != 0xFE {
            return Action::Dropped;
        }
        let kind = data[2];
        if kind == 0x02 {
            Action::Reply(self.build_discovery_response())
        } else if kind == 0x04 {
            if data[3] == 0x01 {
                self.state.running = true;
                Action::Start
            } else if data[3] == 0x00 {
                self.state.running = false;
                Action::Stop
            } else {
                Action::Ignored
            }
        } else if kind == 0x01 {
            self.handle_host_data(data);
            Action::HostData
        } else {
            Action::Ignored
        }
    }

    /// The four telemetry bytes C1..C4 for `addr`.
    fn telemetry_bytes(&self, addr: u8) -> (r: Vec<u8>)
        ensures
            r@ == telemetry(addr, self.state),
    {
        let s = &self.state;
        if addr == 0x00 {
            let r = vec![0u8, s.firmware_version, s.penny_version, 0u8];
            assert(r@ =~= telemetry(addr, self.state));
            return r;
        }
        let d = s.tx_drive as u16;
        assert(d * d <= 65025 && d * 10 <= 2550) by (nonlinear_arith)
            requires
                d <= 255,
        ;
        let fwd: u16 = (d * d) / 16;
        let (hi, lo): (u16, u16) = if addr == 0x08 {
            if s.ptt {
                (d * 10, fwd)
            } else {
                (0, 0)
            }
        } else if addr == 0x10 {
            if s.ptt {
                let rev = fwd / 50;
                (if rev < 1 { 1 } else { rev }, SUPPLY_READING)
            } else {
                (0, SUPPLY_READING)
            }
        } else {
            if s.ptt {
                (d * 5, SUPPLY_READING)
            } else {
                (0, SUPPLY_READING)
            }
        };
        let r = vec![(hi / 0x100) as u8, (hi % 0x100) as u8, (lo / 0x100) as u8, (lo % 0x100) as u8];
        assert(r@ =~= telemetry(addr, self.state));
        r
    }

    /// Writes one outbound sub-frame at `offset` of `buf`: sync, the C0 of
    /// the next telemetry address with its readings, one row per sample from
    /// sample `first` of each DDC, then zero padding; the rotation advances.
    pub fn fill_subframe(&mut self, buf: &mut Vec<u8>, offset: usize, iq: &Vec<Vec<IqSample>>, first: usize)
        requires
            old(self).wf(),
            offset + SUBFRAME_SIZE <= old(buf)@.len(),
            iq_covers(iq_view(iq), old(self).state.nddc, first as int, spr_of(old(self).state.nddc) as int),
        ensures
            final(self).wf(),
            *final(self) == (Protocol1Server {
                control_idx: ((old(self).control_idx + 1) % 4) as u8,
                ..*old(self)
            }),
            final(buf)@ == old(buf)@.subrange(0, offset as int) + subframe_bytes(
                old(self).state,
                old(self).spec_control_idx(),
                iq_view(iq),
                first as int,
            ) + old(buf)@.subrange(offset + 512, old(buf)@.len() as int),
    {
        let ghost orig = buf@;
        let ghost iqv = iq_view(iq);
        let ghost st = self.state;
        let len = buf.len();
        let n: usize = if self.state.nddc == 0 { 1 } else { self.state.nddc as usize };
        let spr = samples_per_subframe(self.state.nddc);
        let rl: usize = 6 * n + 2;
        proof {
            lemma_spr_fits(self.state.nddc);
        }
        let addr: u8 = self.control_idx * 8;
        assert(addr == response_addr(self.control_idx as nat));
        let ptt_bit: u8 = if self.state.ptt { 1 } else { 0 };
        let c0 = addr | 0x80 | ptt_bit;
        let tele = self.telemetry_bytes(addr);
        self.control_idx = (self.control_idx + 1) % 4;
        let head = vec![0x7Fu8, 0x7Fu8, 0x7Fu8, c0, tele[0], tele[1], tele[2], tele[3]];
        let ghost header = seq![0x7Fu8, 0x7Fu8, 0x7Fu8, c0_byte(addr, st.ptt)] + telemetry(addr, st);
        assert(head@ =~= header);
        let mut k: usize = 0;
        assert(buf@ =~= orig.subrange(0, offset as int) + header.take(0) + orig.subrange(offset as int, len as int));
        while k < 8
            invariant
                buf@.len() == len,
                len == orig.len(),
                offset + 512 <= len,
                head@ == header,
                header.len() == 8,
                k <= 8,
                buf@ == orig.subrange(0, offset as int) + header.take(k as int) + orig.subrange(offset + k, len as int),
            decreases 8 - k,
        {
            let ghost cur = buf@;
            put_byte(buf, offset + k, head[k]);
            proof {
                lemma_splice(orig, offset as int, header.take(k as int), seq![header[k as int]], cur);
                assert(header.take(k as int) + seq![header[k as int]] =~= header.take(k + 1));
            }
            k = k + 1;
        }
        assert(header.take(8) =~= header);
        let mut dofs: usize = offset + 8;
        let mut row: usize = 0;
        proof {
            lemma_rows_bytes_len(iqv, first as int, 0, n as nat);
            assert(header + rows_bytes(iqv, first as int, 0, n as nat) =~= header);
        }
        while row < spr
            invariant
                buf@.len() == len,
                len == orig.len(),
                offset + 512 <= len,
                n == eff_nddc(st.nddc),
                rl == row_len(st.nddc),
                spr == spr_of(st.nddc),
                spr * rl <= 504,
                iqv == iq_view(iq),
                iq_covers(iqv, st.nddc, first as int, spr as int),
                header.len() == 8,
                row <= spr,
                dofs == offset + 8 + row * rl,
                buf@ == orig.subrange(0, offset as int) + (header + rows_bytes(iqv, first as int, row as nat, n as nat))
                    + orig.subrange(dofs as int, len as int),
            decreases spr - row,
        {
            proof {
                assert((row + 1) * rl <= spr * rl) by (nonlinear_arith)
                    requires
                        row + 1 <= spr,
                ;
                assert((row + 1) * rl == row * rl + rl) by (nonlinear_arith);
                lemma_rows_bytes_len(iqv, first as int, row as nat, n as nat);
                lemma_ddc_bytes_len(iqv, first + row, 0);
                assert(header + rows_bytes(iqv, first as int, row as nat, n as nat) + ddc_bytes(iqv, first + row, 0)
                    =~= header + rows_bytes(iqv, first as int, row as nat, n as nat));
            }
            let ghost before = header + rows_bytes(iqv, first as int, row as nat, n as nat);
            let mut d: usize = 0;
            while d < n
                invariant
                    buf@.len() == len,
                    len == orig.len(),
                    offset + 512 <= len,
                    n == eff_nddc(st.nddc),
                    rl == 6 * n + 2,
                    row * rl + rl <= 504,
                    iqv == iq_view(iq),
                    iq_covers(iqv, st.nddc, first as int, spr as int),
                    row < spr,
                    d <= n,
                    before.len() == 8 + row * rl,
                    dofs == offset + 8 + row * rl + 6 * d,
                    buf@ == orig.subrange(0, offset as int) + (before + ddc_bytes(iqv, first + row, d as nat))
                        + orig.subrange(dofs as int, len as int),
                decreases n - d,
            {
                let ghost cur = buf@;
                assert(iqv[d as int] == iq@[d as int]@);
                assert(first + spr <= iqv[d as int].len());
                let lim = iq[d].len();
                assert(first + row < lim);
                let sample = iq[d][first + row];
                assert(sample == iqv[d as int][first + row]);
                proof {
                    lemma_ddc_bytes_len(iqv, first + row, d as nat);
                }
                dofs = pack_iq_24bit_into(buf, dofs, sample);
                proof {
                    lemma_splice(orig, offset as int, before + ddc_bytes(iqv, first + row, d as nat), iq24_bytes(sample), cur);
                    assert(before + ddc_bytes(iqv, first + row, d as nat) + iq24_bytes(sample) =~= before + ddc_bytes(
                        iqv,
                        first + row,
                        (d + 1) as nat,
                    ));
                }
                d = d + 1;
            }
            proof {
                lemma_ddc_bytes_len(iqv, first + row, n as nat);
            }
            let ghost filled = before + ddc_bytes(iqv, first + row, n as nat);
            let ghost cur = buf@;
            put_byte(buf, dofs, 0);
            proof {
                lemma_splice(orig, offset as int, filled, seq![0u8], cur);
            }
            let ghost cur2 = buf@;
            put_byte(buf, dofs + 1, 0);
            proof {
                lemma_splice(orig, offset as int, filled + seq![0u8], seq![0u8], cur2);
                assert(filled + seq![0u8] + seq![0u8] =~= header + rows_bytes(iqv, first as int, (row + 1) as nat, n as nat));
            }
            dofs = dofs + 2;
            row = row + 1;
        }
        proof {
            lemma_rows_bytes_len(iqv, first as int, spr as nat, n as nat);
        }
        let ghost body = header + rows_bytes(iqv, first as int, spr as nat, n as nat);
        let end = offset + 512;
        assert(buf@ =~= orig.subrange(0, offset as int) + (body + Seq::new(0, |i: int| 0u8)) + orig.subrange(dofs as int, len as int));
        while dofs < end
            invariant
                buf@.len() == len,
                len == orig.len(),
                end == offset + 512,
                end <= len,
                body.len() == 8 + spr * rl,
                offset + body.len() <= dofs <= end,
                buf@ == orig.subrange(0, offset as int) + (body + Seq::new((dofs - offset - body.len()) as nat, |i: int| 0u8))
                    + orig.subrange(dofs as int, len as int),
            decreases end - dofs,
        {
            let ghost pad = Seq::new((dofs - offset - body.len()) as nat, |i: int| 0u8);
            let ghost cur = buf@;
            put_byte(buf, dofs, 0);
            proof {
                lemma_splice(orig, offset as int, body + pad, seq![0u8], cur);
                assert(body + pad + seq![0u8] =~= body + Seq::new((dofs + 1 - offset - body.len()) as nat, |i: int| 0u8));
            }
            dofs = dofs + 1;
        }
        assert(body + Seq::new((dofs - offset - body.len()) as nat, |i: int| 0u8) =~= subframe_bytes(
            st,
            old(self).spec_control_idx(),
            iqv,
            first as int,
        ));
    }

    /// Builds the next outbound data packet: header with the next `p1_data`
    /// sequence number, then two sub-frames, the second carrying the samples
    /// that follow the first's.
    pub fn build_data_packet(&mut self, iq: &Vec<Vec<IqSample>>) -> (r: Vec<u8>)
        requires
            old(self).wf(),
            iq_covers(iq_view(iq), old(self).state.nddc, 0, 2 * spr_of(old(self).state.nddc) as int),
        ensures
            final(self).wf(),
            packet_step(*old(self), *final(self), r@, iq_view(iq)),
    {
        let ghost start = *self;
        let seq = self.state.next_seq("p1_data");
        let mut buf: Vec<u8> = Vec::new();
        buf.push(0xEF);
        buf.push(0xFE);
        buf.push(0x01);
        buf.push(0x06);
        buf.push((seq / 0x100_0000) as u8);
        buf.push(((seq / 0x1_0000) % 0x100) as u8);
        buf.push(((seq / 0x100) % 0x100) as u8);
        buf.push((seq % 0x100) as u8);
        let ghost head = buf@;
        while buf.len() < PACKET_SIZE
            invariant
                8 <= buf@.len() <= PACKET_SIZE,
                buf@ == head + Seq::new((buf@.len() - 8) as nat, |i: int| 0u8),
            decreases PACKET_SIZE - buf@.len(),
        {
            buf.push(0);
            assert(buf@ =~= head + Seq::new((buf@.len() - 8) as nat, |i: int| 0u8));
        }
        let spr = samples_per_subframe(self.state.nddc);
        let ghost mid = *self;
        let ghost iqv = iq_view(iq);
        assert(iq_covers(iqv, mid.state.nddc, 0, spr as int));
        proof {
            lemma_subframe_len(mid.state, mid.spec_control_idx(), iqv, 0);
        }
        self.fill_subframe(&mut buf, 8, iq, 0);
        assert(iq_covers(iqv, mid.state.nddc, spr as int, spr as int));
        self.fill_subframe(&mut buf, 520, iq, spr);
        let ghost sub_a = subframe_bytes(mid.state, mid.spec_control_idx(), iqv, 0);
        let ghost sub_b = subframe_bytes(mid.state, ((mid.control_idx + 1) % 4) as nat, iqv, spr as int);
        assert(subframe_bytes(mid.state, mid.spec_control_idx(), iqv, 0) == subframe_bytes(
            start.state,
            start.spec_control_idx(),
            iqv,
            0,
        ));
        assert(response_addr(((mid.control_idx + 1) % 4) as nat) == response_addr(start.spec_control_idx() + 1));
        assert(sub_b == subframe_bytes(start.state, start.spec_control_idx() + 1, iqv, spr as int));
        proof {
            lemma_subframe_len(mid.state, mid.spec_control_idx(), iqv, 0);
            lemma_subframe_len(mid.state, ((mid.control_idx + 1) % 4) as nat, iqv, spr as int);
        }
        assert(buf@ =~= head + sub_a + sub_b);
        assert(head =~= data_header(seq));
        reveal(data_packet);
        buf
    }
}

/// The eight header bytes of a data packet with sequence number `seq`.
pub open spec fn data_header(seq: u32) -> Seq<u8> {
    seq![0xEFu8, 0xFEu8, 0x01u8, 0x06u8] + seq![
        (seq / 0x100_0000) as u8,
        ((seq / 0x1_0000) % 0x100) as u8,
        ((seq / 0x100) % 0x100) as u8,
        (seq % 0x100) as u8,
    ]
}

/// The data packet with sequence number `seq` of a radio in state `s` whose
/// rotation stands at `idx`.
#[verifier::opaque]
pub open spec fn data_packet(seq: u32, s: RadioState, idx: nat, iq: Seq<Seq<IqSample>>) -> Seq<u8> {
    data_header(seq) + subframe_bytes(s, idx, iq, 0) + subframe_bytes(s, idx + 1, iq, spr_of(s.nddc) as int)
}

/// One outbound packet: `packet` is what `before` sends, carrying the next
/// `p1_data` sequence number, and `after` differs from `before` only in that
/// counter, advanced by one, and in the rotation, advanced by two.
pub open spec fn packet_step(
    before: Protocol1Server,
    after: Protocol1Server,
    packet: Seq<u8>,
    iq: Seq<Seq<IqSample>>,
) -> bool {
    let seq = before.state.seq.number_of("p1_data"@);
    &&& packet == data_packet(seq, before.state, before.spec_control_idx(), iq)
    &&& after.state.seq.numbers() == before.state.seq.numbers().insert("p1_data"@, seq.wrapping_add(1))
    &&& after.state.seq.wf()
    &&& after == (Protocol1Server {
        control_idx: ((before.control_idx + 2) % 4) as u8,
        state: RadioState { seq: after.state.seq, ..before.state },
        ..before
    })
}

/// Whether a datagram carries the Protocol 1 magic and a type byte.
pub open spec fn is_protocol1(data: Seq<u8>) -> bool {
    data.len() >= 4 && data[0] == 0xEF && data[1] == 0xFE
}

/// The discovery reply of a radio in state `s`.
pub open spec fn discovery_reply(s: RadioState) -> Seq<u8> {
    seq![0xEFu8, 0xFEu8, 0x02u8] + s.mac@ + seq![s.firmware_version, s.hw.spec_code(), 0u8, 0u8, 0u8]
        + s.mercury_versions@ + seq![s.penny_version, s.metis_version, s.nddc] + Seq::new(
        39,
        |i: int| 0u8,
    )
}

/// The number of DDCs that sub-frames carry: `nddc`, but at least one.
pub open spec fn eff_nddc(nddc: u8) -> nat {
    if nddc == 0 {
        1
    } else {
        nddc as nat
    }
}

/// Bytes of one sample row: six per DDC and two microphone bytes.
pub open spec fn row_len(nddc: u8) -> nat {
    6 * eff_nddc(nddc) + 2
}

/// Samples per sub-frame.
pub open spec fn spr_of(nddc: u8) -> nat {
    504nat / row_len(nddc)
}

/// The telemetry address sent at rotation index `idx`: 0x00, 0x08, 0x10, 0x18.
pub open spec fn response_addr(idx: nat) -> u8 {
    (8 * (idx % 4)) as u8
}

/// Two big-endian bytes of `v`.
pub open spec fn be16(v: int) -> Seq<u8> {
    seq![(v / 0x100) as u8, (v % 0x100) as u8]
}

/// Forward power reading for drive level `d`.
pub open spec fn forward_power(d: u8) -> int {
    (d as int * d as int) / 16
}

/// PA supply reading.
pub const SUPPLY_READING: u16 = 3200;

/// The four telemetry bytes C1..C4 sent at address `addr`.
pub open spec fn telemetry(addr: u8, s: RadioState) -> Seq<u8> {
    let d = s.tx_drive as int;
    if addr == 0x00 {
        seq![0u8, s.firmware_version, s.penny_version, 0u8]
    } else if addr == 0x08 {
        if s.ptt {
            be16(d * 10) + be16(forward_power(s.tx_drive))
        } else {
            be16(0) + be16(0)
        }
    } else if addr == 0x10 {
        if s.ptt {
            be16(if forward_power(s.tx_drive) / 50 < 1 { 1 } else { forward_power(s.tx_drive) / 50 })
                + be16(SUPPLY_READING as int)
        } else {
            be16(0) + be16(SUPPLY_READING as int)
        }
    } else {
        if s.ptt {
            be16(d * 5) + be16(SUPPLY_READING as int)
        } else {
            be16(0) + be16(SUPPLY_READING as int)
        }
    }
}

/// The C0 byte sent at address `addr`: the address, bit 7 set and the PTT bit.
pub open spec fn c0_byte(addr: u8, ptt: bool) -> u8 {
    addr | 0x80u8 | (if ptt { 1u8 } else { 0u8 })
}

/// The IQ of row `row` for the first `d` DDCs.
pub open spec fn ddc_bytes(iq: Seq<Seq<IqSample>>, row: int, d: nat) -> Seq<u8>
    decreases d,
{
    if d == 0 {
        Seq::empty()
    } else {
        ddc_bytes(iq, row, (d - 1) as nat) + iq24_bytes(iq[d - 1][row])
    }
}

/// One sample row: the IQ of each DDC, then two bytes of silent microphone.
pub open spec fn row_bytes(iq: Seq<Seq<IqSample>>, row: int, nddc: nat) -> Seq<u8> {
    ddc_bytes(iq, row, nddc) + seq![0u8, 0u8]
}

/// `n` sample rows, taken from sample `first` on.
pub open spec fn rows_bytes(iq: Seq<Seq<IqSample>>, first: int, n: nat, nddc: nat) -> Seq<u8>
    decreases n,
{
    if n == 0 {
        Seq::empty()
    } else {
        rows_bytes(iq, first, (n - 1) as nat, nddc) + row_bytes(iq, first + n - 1, nddc)
    }
}

/// The 512-byte outbound sub-frame of a radio in state `s` at rotation index
/// `idx`, carrying samples `first..first + spr` of each DDC.
pub open spec fn subframe_bytes(s: RadioState, idx: nat, iq: Seq<Seq<IqSample>>, first: int) -> Seq<u8> {
    let addr = response_addr(idx);
    let spr = spr_of(s.nddc);
    seq![0x7Fu8, 0x7Fu8, 0x7Fu8, c0_byte(addr, s.ptt)] + telemetry(addr, s) + rows_bytes(
        iq,
        first,
        spr,
        eff_nddc(s.nddc),
    ) + Seq::new((504 - spr * row_len(s.nddc)) as nat, |i: int| 0u8)
}

/// The samples of each DDC, as sequences.
pub open spec fn iq_view(iq: &Vec<Vec<IqSample>>) -> Seq<Seq<IqSample>> {
    iq@.map_values(|v: Vec<IqSample>| v@)
}

/// Every DDC that sub-frames carry has `count` samples from `first` on.
pub open spec fn iq_covers(iq: Seq<Seq<IqSample>>, nddc: u8, first: int, count: int) -> bool {
    &&& iq.len() >= eff_nddc(nddc)
    &&& forall|d: int| 0 <= d < eff_nddc(nddc) ==> first + count <= #[trigger] iq[d].len()
}

proof fn lemma_ddc_bytes_len(iq: Seq<Seq<IqSample>>, row: int, d: nat)
    ensures
        ddc_bytes(iq, row, d).len() == 6 * d,
    decreases d,
{
    if d > 0 {
        lemma_ddc_bytes_len(iq, row, (d - 1) as nat);
    }
}

proof fn lemma_rows_bytes_len(iq: Seq<Seq<IqSample>>, first: int, n: nat, nddc: nat)
    ensures
        rows_bytes(iq, first, n, nddc).len() == n * (6 * nddc + 2),
    decreases n,
{
    if n > 0 {
        lemma_rows_bytes_len(iq, first, (n - 1) as nat, nddc);
        lemma_ddc_bytes_len(iq, first + n - 1, nddc);
        let m = (n - 1) as nat;
        assert(row_bytes(iq, first + n - 1, nddc).len() == 6 * nddc + 2);
        assert(m * (6 * nddc + 2) + (6 * nddc + 2) == n * (6 * nddc + 2)) by (nonlinear_arith)
            requires
                m + 1 == n,
        ;
    } else {
        assert(n * (6 * nddc + 2) == 0) by (nonlinear_arith)
            requires
                n == 0,
        ;
    }
}

proof fn lemma_spr_fits(nddc: u8)
    ensures
        spr_of(nddc) * row_len(nddc) <= 504,
{
    let rl = row_len(nddc) as int;
    vstd::arithmetic::div_mod::lemma_fundamental_div_mod(504, rl);
    vstd::arithmetic::div_mod::lemma_mod_pos_bound(504, rl);
    assert(rl * (504int / rl) == (504int / rl) * rl) by (nonlinear_arith);
}

proof fn lemma_subframe_len(s: RadioState, idx: nat, iq: Seq<Seq<IqSample>>, first: int)
    ensures
        subframe_bytes(s, idx, iq, first).len() == 512,
{
    lemma_spr_fits(s.nddc);
    lemma_rows_bytes_len(iq, first, spr_of(s.nddc), eff_nddc(s.nddc));
}

proof fn lemma_splice(orig: Seq<u8>, off: int, p: Seq<u8>, x: Seq<u8>, cur: Seq<u8>)
    requires
        0 <= off,
        off + p.len() + x.len() <= orig.len(),
        cur == orig.subrange(0, off) + p + orig.subrange(off + p.len(), orig.len() as int),
    ensures
        cur.subrange(0, off + p.len()) + x + cur.subrange(off + p.len() + x.len(), cur.len() as int) == orig.subrange(0, off)
            + (p + x) + orig.subrange(off + p.len() + x.len(), orig.len() as int),
{
    assert(cur.subrange(0, off + p.len()) =~= orig.subrange(0, off) + p);
    assert(cur.subrange(off + p.len() + x.len(), cur.len() as int) =~= orig.subrange(
        off + p.len() + x.len(),
        orig.len() as int,
    ));
    assert(cur.subrange(0, off + p.len()) + x + cur.subrange(off + p.len() + x.len(), cur.len() as int) =~= orig.subrange(0, off)
        + (p + x) + orig.subrange(off + p.len() + x.len(), orig.len() as int));
}

fn put_byte(buf: &mut Vec<u8>, i: usize, b: u8)
    requires
        i < old(buf)@.len(),
    ensures
        final(buf)@ == old(buf)@.subrange(0, i as int) + seq![b] + old(buf)@.subrange(i + 1, old(buf)@.len() as int),
{
    buf[i] = b;
    assert(final(buf)@ =~= old(buf)@.subrange(0, i as int) + seq![b] + old(buf)@.subrange(i + 1, old(buf)@.len() as int));
}

/// Samples per sub-frame for `nddc` active DDCs (at least one).
pub fn samples_per_subframe(nddc: u8) -> (r: usize)
    ensures
        r == spr_of(nddc),
{
    let n: usize = if nddc == 0 { 1 } else { nddc as usize };
    504 / (6 * n + 2)
}

/// Nanoseconds between outbound packets: two sub-frames of samples at
/// `sample_rate`, rounded down.
pub fn packet_interval_nanos(nddc: u8, sample_rate: u32) -> (r: u64)
    requires
        sample_rate > 0,
    ensures
        r == (2 * spr_of(nddc) * 1_000_000_000) / (sample_rate as nat),
{
    let spr = samples_per_subframe(nddc) as u64;
    proof {
        lemma_spr_fits(nddc);
    }
    2 * spr * 1_000_000_000 / (sample_rate as u64)
}

} // verus!

verus! {

/// The sequence number carried at bytes 4..8 of a data packet.
pub open spec fn packet_seq(packet: Seq<u8>) -> u32 {
    be_u32(packet[4], packet[5], packet[6], packet[7])
}

proof fn lemma_be_u32_of_header(v: u32)
    ensures
        packet_seq(data_header(v)) == v,
{
    let h = data_header(v);
    let a = v / 0x100_0000;
    let b = (v / 0x1_0000) % 0x100;
    let c = (v / 0x100) % 0x100;
    let d = v % 0x100;
    assert(h[4] == a && h[5] == b && h[6] == c && h[7] == d);
    assert(a * 0x100_0000 + b * 0x1_0000 + c * 0x100 + d == v);
}

/// Discovery law: the reply to a discovery request is 60 bytes with the
/// magic and type 0x02, the configured MAC at 3..9, the board code at 10,
/// protocol 0 at 11 and the active DDC count at 20.
pub proof fn lemma_discovery_reply_fields(s: RadioState)
    ensures
        ({
            let r = discovery_reply(s);
            &&& r.len() == 60
            &&& r[0] == 0xEF && r[1] == 0xFE && r[2] == 0x02
            &&& r.subrange(3, 9) == s.mac@
            &&& r[10] == s.hw.spec_code()
            &&& r[11] == 0
            &&& r[20] == s.nddc
        }),
{
    let r = discovery_reply(s);
    assert(r.subrange(3, 9) =~= s.mac@);
}

/// Sub-frame law: every outbound sub-frame is 512 bytes, starts with the
/// sync bytes 7F 7F 7F, and has bit 7 of C0 set and bit 0 of C0 equal to PTT.
pub proof fn lemma_subframe_shape(s: RadioState, idx: nat, iq: Seq<Seq<IqSample>>, first: int)
    ensures
        ({
            let sf = subframe_bytes(s, idx, iq, first);
            &&& sf.len() == 512
            &&& sf[0] == 0x7F && sf[1] == 0x7F && sf[2] == 0x7F
            &&& sf[3] & 0x80 == 0x80
            &&& (sf[3] & 1 == 1) == s.ptt
        }),
{
    lemma_subframe_len(s, idx, iq, first);
    let addr = response_addr(idx);
    let c0 = c0_byte(addr, s.ptt);
    let bit: u8 = if s.ptt { 1 } else { 0 };
    assert(addr == 0 || addr == 8 || addr == 16 || addr == 24);
    assert(c0 & 0x80 == 0x80 && ((c0 & 1 == 1) == (bit == 1))) by (bit_vector)
        requires
            c0 == addr | 0x80u8 | bit,
            bit <= 1,
            addr == 0 || addr == 8 || addr == 16 || addr == 24,
    ;
}

proof fn lemma_c0_address(addr: u8, ptt: bool)
    requires
        addr == 0 || addr == 8 || addr == 16 || addr == 24,
    ensures
        c0_byte(addr, ptt) & 0x78 == addr,
{
    let bit: u8 = if ptt { 1 } else { 0 };
    let c0 = c0_byte(addr, ptt);
    assert(c0 & 0x78 == addr) by (bit_vector)
        requires
            c0 == addr | 0x80u8 | bit,
            bit <= 1,
            addr == 0 || addr == 8 || addr == 16 || addr == 24,
    ;
}

/// A run of outbound packets: `servers[k]` sends `packets[k]` and becomes
/// `servers[k + 1]`.
pub open spec fn packet_run(
    servers: Seq<Protocol1Server>,
    packets: Seq<Seq<u8>>,
    iqs: Seq<Seq<Seq<IqSample>>>,
) -> bool {
    &&& servers.len() == packets.len() + 1
    &&& iqs.len() == packets.len()
    &&& forall|k: int| 0 <= k < packets.len() ==> packet_step(servers[k], servers[k + 1], #[trigger] packets[k], iqs[k])
}

#[verifier::rlimit(40)]
proof fn lemma_run_counters(servers: Seq<Protocol1Server>, packets: Seq<Seq<u8>>, iqs: Seq<Seq<Seq<IqSample>>>, k: int)
    requires
        packet_run(servers, packets, iqs),
        0 <= k <= packets.len(),
    ensures
        servers[k].state.seq.number_of("p1_data"@) as int == (servers[0].state.seq.number_of("p1_data"@) + k)
            % 0x1_0000_0000,
        servers[k].spec_control_idx() % 4 == (servers[0].spec_control_idx() + 2 * k) % 4,
    decreases k,
{
    if k > 0 {
        lemma_run_counters(servers, packets, iqs, k - 1);
        let p = packets[k - 1];
        let before = servers[k - 1];
        let after = servers[k];
        assert(packet_step(before, after, p, iqs[k - 1]));
        let v = before.state.seq.number_of("p1_data"@);
        let s0 = servers[0].state.seq.number_of("p1_data"@) as int;
        assert(after.state.seq.numbers()["p1_data"@] == v.wrapping_add(1));
        assert(after.state.seq.number_of("p1_data"@) == v.wrapping_add(1));
        assert(v as int == (s0 + k - 1) % 0x1_0000_0000);
        assert(v.wrapping_add(1) as int == (v as int + 1) % 0x1_0000_0000);
        vstd::arithmetic::div_mod::lemma_add_mod_noop(s0 + k - 1, 1, 0x1_0000_0000);
        assert(1int % 0x1_0000_0000 == 1);
        assert(after.control_idx == ((before.control_idx + 2) % 4) as u8);
        assert(before.control_idx % 4 == (servers[0].control_idx + 2 * (k - 1)) % 4);
    }
}

/// Sequence law: the `p1_data` numbers of consecutive outbound packets are
/// s, s + 1, ... modulo 2^32, from the counter s of the first sender.
pub proof fn lemma_sequence_numbers_contiguous(
    servers: Seq<Protocol1Server>,
    packets: Seq<Seq<u8>>,
    iqs: Seq<Seq<Seq<IqSample>>>,
)
    requires
        packet_run(servers, packets, iqs),
    ensures
        forall|k: int| 0 <= k < packets.len() ==> #[trigger] packet_seq(packets[k]) as int == (servers[0].state.seq.number_of(
            "p1_data"@,
        ) + k) % 0x1_0000_0000,
{
    assert forall|k: int| 0 <= k < packets.len() implies #[trigger] packet_seq(packets[k]) as int == (
    servers[0].state.seq.number_of("p1_data"@) + k) % 0x1_0000_0000 by {
        lemma_run_counters(servers, packets, iqs, k);
        let cur = packets[k];
        assert(packet_step(servers[k], servers[k + 1], packets[k], iqs[k]));
        reveal(data_packet);
        let v = servers[k].state.seq.number_of("p1_data"@);
        lemma_be_u32_of_header(v);
        assert(packets[k].subrange(0, 8) =~= data_header(v));
        assert(packets[k][4] == data_header(v)[4]);
        assert(packets[k][5] == data_header(v)[5]);
        assert(packets[k][6] == data_header(v)[6]);
        assert(packets[k][7] == data_header(v)[7]);
    }
}

/// Rotation law: across a run of outbound packets the C0 address bits
/// (C0 & 0x78) of successive sub-frames follow 0x00, 0x08, 0x10, 0x18
/// cyclically, one step per sub-frame, from where the first sender stood.
pub proof fn lemma_c0_rotation(servers: Seq<Protocol1Server>, packets: Seq<Seq<u8>>, iqs: Seq<Seq<Seq<IqSample>>>)
    requires
        packet_run(servers, packets, iqs),
    ensures
        forall|k: int| 0 <= k < packets.len() ==> {
            &&& (#[trigger] packets[k])[11] & 0x78 == response_addr((servers[0].spec_control_idx() + 2 * k) as nat)
            &&& packets[k][523] & 0x78 == response_addr((servers[0].spec_control_idx() + 2 * k + 1) as nat)
        },
{
    assert forall|k: int| 0 <= k < packets.len() implies {
        &&& (#[trigger] packets[k])[11] & 0x78 == response_addr((servers[0].spec_control_idx() + 2 * k) as nat)
        &&& packets[k][523] & 0x78 == response_addr((servers[0].spec_control_idx() + 2 * k + 1) as nat)
    } by {
        lemma_run_counters(servers, packets, iqs, k);
        let cur = packets[k];
        assert(packet_step(servers[k], servers[k + 1], packets[k], iqs[k]));
        reveal(data_packet);
        let st = servers[k].state;
        let idx = servers[k].spec_control_idx();
        let i0 = servers[0].spec_control_idx();
        lemma_subframe_len(st, idx, iqs[k], 0);
        let a = response_addr(idx);
        let b = response_addr(idx + 1);
        assert(a == response_addr((i0 + 2 * k) as nat));
        assert(b == response_addr((i0 + 2 * k + 1) as nat));
        lemma_c0_address(a, st.ptt);
        lemma_c0_address(b, st.ptt);
        assert(cur[11] == subframe_bytes(st, idx, iqs[k], 0)[3]);
        assert(cur[523] == subframe_bytes(st, idx + 1, iqs[k], spr_of(st.nddc) as int)[3]);
    }
}

/// The sample rate is one of the four Protocol 1 rates and at least one DDC
/// is active.
pub open spec fn controls_valid(cv: ControlView) -> bool {
    &&& (cv.sample_rate == 48000 || cv.sample_rate == 96000 || cv.sample_rate == 192000 || cv.sample_rate
        == 384000)
    &&& cv.nddc >= 1
}

/// Control words keep the sample rate in the allowed set and at least one
/// DDC active.
pub proof fn lemma_control_keeps_valid(cv: ControlView, c0: u8, c1: u8, c2: u8, c3: u8, c4: u8)
    requires
        controls_valid(cv),
    ensures
        controls_valid(cv.apply(c0, c1, c2, c3, c4)),
{
    let code = c1 & 3;
    let field = (c4 >> 3u8) & 7;
    assert(code <= 3) by (bit_vector)
        requires
            code == c1 & 3,
    ;
    assert(field <= 7) by (bit_vector)
        requires
            field == (c4 >> 3u8) & 7,
    ;
}

/// Inbound data packets keep the sample rate in the allowed set and at least
/// one DDC active.
pub proof fn lemma_host_data_keeps_valid(cv: ControlView, data: Seq<u8>)
    requires
        controls_valid(cv),
    ensures
        controls_valid(cv.host_data(data)),
{
    if data.len() >= PACKET_SIZE {
        let a = data.subrange(8, 520);
        let b = data.subrange(520, 1032);
        lemma_control_keeps_valid(cv, a[3], a[4], a[5], a[6], a[7]);
        let mid = cv.subframe(a);
        lemma_control_keeps_valid(mid, b[3], b[4], b[5], b[6], b[7]);
    }
}

/// Echo law: with an echo recorder, a control word that raises MOX at
/// transmit frequency f > 0, then K > 0 fed transmit samples, then a control
/// word that drops MOX leave a recording at f of min(K, cap) samples.
pub proof fn lemma_mox_cycle_records(
    cv: ControlView,
    up: (u8, u8, u8, u8, u8),
    samples: Seq<TxSample>,
    down: (u8, u8, u8, u8, u8),
)
    requires
        !cv.ptt,
        cv.echo is Some,
        cv.echo->0.max_samples > 0,
        cv.tx_frequency > 0,
        up.0 & 1 == 1,
        down.0 & 1 == 0,
        samples.len() > 0,
    ensures
        ({
            let raised = cv.apply(up.0, up.1, up.2, up.3, up.4);
            let fed = ControlView { echo: Some(raised.echo->0.feed(samples)), ..raised };
            let dropped = fed.apply(down.0, down.1, down.2, down.3, down.4);
            let cap = cv.echo->0.max_samples;
            let k = if samples.len() <= cap { samples.len() } else { cap };
            &&& dropped.echo is Some
            &&& dropped.echo->0.recordings.contains_key(cv.tx_frequency)
            &&& dropped.echo->0.recordings[cv.tx_frequency].len() == k
        }),
{
    let b = up.0;
    assert(b & 1 != 0) by (bit_vector)
        requires
            b & 1 == 1,
    ;
    lemma_record_then_stop(cv.echo->0, cv.tx_frequency, samples);
}

} // verus!
