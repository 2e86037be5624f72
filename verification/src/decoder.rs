//! The SSE frame decoder: reassembles raw byte chunks from an open HTTP
//! response body into the JSON payloads of `data: <json>` frames.
//!
//! Bytes may arrive split at arbitrary positions, so the decoder keeps
//! the incomplete trailing line in a residual buffer and decodes a line
//! only once it is complete. Every completed line is decoded as UTF-8;
//! invalid bytes anywhere in a completed line are an encoding error,
//! fatal for the stream. Lines without the data prefix (comments,
//! keep-alives, blank separators) produce no payload.

use vstd::prelude::*;
use vstd::utf8::decode_utf8;
use vstd::utf8::valid_utf8;
use crate::errors::StreamError;
use crate::text::first_index_of;
use crate::text::lemma_first_index_of;

verus! {

/// The six bytes of the SSE data prefix, `data: `.
pub open spec fn data_prefix() -> Seq<u8> {
    seq![100u8, 97u8, 116u8, 97u8, 58u8, 32u8]
}

/// A complete line that carries a frame payload.
pub open spec fn is_data_line(line: Seq<u8>) -> bool {
    line.len() >= 6 && line.take(6) == data_prefix()
}

/// The payload bytes of a data line: everything after the prefix.
pub open spec fn payload_of(line: Seq<u8>) -> Seq<u8> {
    line.skip(6)
}

/// What remains of `b` after its last newline: the incomplete line the
/// decoder must keep for the next chunk.
pub open spec fn line_residual(b: Seq<u8>) -> Seq<u8>
    decreases b.len(),
{
    let i = first_index_of(b, 10u8);
    if i >= b.len() {
        b
    } else {
        line_residual(b.skip(i as int + 1))
    }
}

/// The newline-terminated lines of `b`, in order, separators dropped.
pub open spec fn complete_lines(b: Seq<u8>) -> Seq<Seq<u8>>
    decreases b.len(),
{
    let i = first_index_of(b, 10u8);
    if i >= b.len() {
        Seq::<Seq<u8>>::empty()
    } else {
        seq![b.take(i as int)] + complete_lines(b.skip(i as int + 1))
    }
}

/// The payloads of all complete data lines of `b`, in order.
pub open spec fn frame_payloads(b: Seq<u8>) -> Seq<Seq<u8>>
    decreases b.len(),
{
    let i = first_index_of(b, 10u8);
    if i >= b.len() {
        Seq::<Seq<u8>>::empty()
    } else {
        let line = b.take(i as int);
        let rest = frame_payloads(b.skip(i as int + 1));
        if is_data_line(line) {
            seq![payload_of(line)] + rest
        } else {
            rest
        }
    }
}

/// Every complete line of `b` decodes as UTF-8.
pub open spec fn lines_valid(b: Seq<u8>) -> bool {
    forall|k: int| 0 <= k < complete_lines(b).len() ==> valid_utf8(#[trigger] complete_lines(b)[k])
}

/// Every payload of `b` decodes as UTF-8.
pub open spec fn payloads_valid(b: Seq<u8>) -> bool {
    forall|k: int| 0 <= k < frame_payloads(b).len() ==> valid_utf8(#[trigger] frame_payloads(b)[k])
}

/// The decoded payload texts of `b`, assuming they are valid UTF-8.
pub open spec fn decoded_payloads(b: Seq<u8>) -> Seq<Seq<char>> {
    frame_payloads(b).map_values(|p: Seq<u8>| decode_utf8(p))
}

/// Relies on core::str::from_utf8: it returns `Ok` exactly when the
/// bytes are valid UTF-8, and then decodes them.
#[verifier::external_body]
fn bytes_to_string(bytes: &Vec<u8>) -> (r: Option<String>)
    ensures
        r is Some <==> valid_utf8(bytes@),
        r matches Some(s) ==> s@ == decode_utf8(bytes@),
{
    match core::str::from_utf8(bytes.as_slice()) {
        Ok(s) => Some(s.to_string()),
        Err(_) => None,
    }
}

/// Stateful decoder for one SSE stream. Its view is the residual bytes:
/// the tail of the input after the last complete line.
pub struct SSEFrameDecoder {
    residual: Vec<u8>,
}

impl View for SSEFrameDecoder {
    type V = Seq<u8>;

    closed spec fn view(&self) -> Seq<u8> {
        self.residual@
    }
}

impl SSEFrameDecoder {
    /// A fresh decoder with an empty residual buffer.
    pub fn new() -> (d: Self)
        ensures
            d@ == Seq::<u8>::empty(),
    {
        let d = SSEFrameDecoder { residual: Vec::new() };
        proof {
            assert(d@ =~= Seq::<u8>::empty());
        }
        d
    }

    /// Consume one chunk of the response body. The chunk is appended to
    /// the residual bytes; every line completed by it is decoded as
    /// UTF-8 and classified, and the payloads of the data lines are
    /// returned in order. Invalid bytes in any completed line — data
    /// payload or not — make the whole call an encoding error, and the
    /// stream is then to be abandoned; the residual is advanced either
    /// way.
    pub fn push_chunk(&mut self, chunk: &[u8]) -> (out: Result<Vec<String>, StreamError>)
        ensures
            final(self)@ == line_residual(old(self)@ + chunk@),
            out matches Ok(v) ==> lines_valid(old(self)@ + chunk@) && payloads_valid(
                old(self)@ + chunk@,
            ) && v.deep_view() == decoded_payloads(old(self)@ + chunk@),
            out is Err ==> !(lines_valid(old(self)@ + chunk@) && payloads_valid(
                old(self)@ + chunk@,
            )) && (out matches Err(e) && e == StreamError::Encoding),
    {
        let ghost r0 = self@;
        let ghost all = self@ + chunk@;
        let mut k: usize = 0;
        while k < chunk.len()
            invariant
                k <= chunk.len(),
                self@ == r0 + chunk@.take(k as int),
            decreases chunk.len() - k,
        {
            self.residual.push(chunk[k]);
            proof {
                assert(self@ =~= r0 + chunk@.take(k as int + 1));
            }
            k += 1;
        }
        proof {
            assert(chunk@.take(chunk@.len() as int) =~= chunk@);
            assert(self@ == all);
        }
        let mut out: Vec<String> = Vec::new();
        let mut bad = false;
        let mut pos: usize = 0;
        let len = self.residual.len();
        proof {
            assert(all.skip(0) =~= all);
            assert(out.deep_view() =~= Seq::<Seq<char>>::empty());
            assert(out.deep_view() + decoded_payloads(all) =~= decoded_payloads(all));
            assert(frame_payloads(all).skip(0) =~= frame_payloads(all));
            assert(complete_lines(all).skip(0) =~= complete_lines(all));
        }
        loop
            invariant
                pos <= len,
                len == self.residual.len(),
                self@ == all,
                len == all.len(),
                line_residual(all) == line_residual(all.skip(pos as int)),
                frame_payloads(all.skip(pos as int)).len() <= frame_payloads(all).len(),
                frame_payloads(all).skip(
                    frame_payloads(all).len() - frame_payloads(all.skip(pos as int)).len(),
                ) == frame_payloads(all.skip(pos as int)),
                complete_lines(all.skip(pos as int)).len() <= complete_lines(all).len(),
                complete_lines(all).skip(
                    complete_lines(all).len() - complete_lines(all.skip(pos as int)).len(),
                ) == complete_lines(all.skip(pos as int)),
                !bad ==> out.deep_view() + decoded_payloads(all.skip(pos as int))
                    == decoded_payloads(all),
                !bad ==> forall|q: int|
                    0 <= q < frame_payloads(all).len() - frame_payloads(
                        all.skip(pos as int),
                    ).len() ==> valid_utf8(#[trigger] frame_payloads(all)[q]),
                !bad ==> forall|q: int|
                    0 <= q < complete_lines(all).len() - complete_lines(
                        all.skip(pos as int),
                    ).len() ==> valid_utf8(#[trigger] complete_lines(all)[q]),
                bad ==> !(lines_valid(all) && payloads_valid(all)),
            ensures
                pos <= len,
                len == self.residual.len(),
                self@ == all,
                line_residual(all) == all.skip(pos as int),
                !bad ==> out.deep_view() == decoded_payloads(all) && payloads_valid(all)
                    && lines_valid(all),
                bad ==> !(lines_valid(all) && payloads_valid(all)),
            decreases len - pos,
        {
            let ghost tail = all.skip(pos as int);
            // find the next newline at or after pos
            let mut j = pos;
            while j < len && self.residual[j] != 10u8
                invariant
                    pos <= j <= len,
                    len == self.residual.len(),
                    self@ == all,
                    len == all.len(),
                    forall|t: int| pos <= t < j ==> all[t] != 10u8,
                decreases len - j,
            {
                j += 1;
            }
            proof {
                lemma_first_index_of(tail, 10u8);
                let f = first_index_of(tail, 10u8);
                if j < len {
                    assert(all[j as int] == 10u8);
                    assert(tail[j - pos] == 10u8);
                    if f < j - pos {
                        assert(tail[f as int] == 10u8);
                        assert(all[pos + f] == 10u8);
                    }
                    if f > j - pos {
                        assert(tail[j - pos] != 10u8);
                    }
                    assert(f == j - pos);
                } else {
                    if f < tail.len() {
                        assert(tail[f as int] == 10u8);
                        assert(all[pos + f] == 10u8);
                    }
                    assert(f >= tail.len());
                }
            }
            if j >= len {
                // no newline is left: everything from pos on stays buffered
                proof {
                    assert(line_residual(tail) == tail);
                    assert(frame_payloads(tail) =~= Seq::<Seq<u8>>::empty());
                    assert(complete_lines(tail) =~= Seq::<Seq<u8>>::empty());
                    assert(decoded_payloads(tail) =~= Seq::<Seq<char>>::empty());
                    if !bad {
                        assert(out.deep_view() + decoded_payloads(tail) =~= out.deep_view());
                        assert(forall|q: int|
                            0 <= q < frame_payloads(all).len() ==> valid_utf8(
                                #[trigger] frame_payloads(all)[q],
                            ));
                        assert(forall|q: int|
                            0 <= q < complete_lines(all).len() ==> valid_utf8(
                                #[trigger] complete_lines(all)[q],
                            ));
                    }
                }
                break;
            }
            let ghost line = tail.take((j - pos) as int);
            let ghost rest = all.skip(j as int + 1);
            let ghost done_p = frame_payloads(all).len() - frame_payloads(tail).len();
            let ghost done_l = complete_lines(all).len() - complete_lines(tail).len();
            proof {
                assert(line =~= all.subrange(pos as int, j as int));
                assert(tail.skip((j - pos) as int + 1) =~= rest);
                assert(complete_lines(tail) == seq![line] + complete_lines(rest));
                assert(complete_lines(all).skip(done_l as int)[0] == complete_lines(
                    all,
                )[done_l as int]);
                assert(complete_lines(all)[done_l as int] == line);
            }
            // the completed line itself must be valid text
            let mut line_vec: Vec<u8> = Vec::new();
            let mut t = pos;
            while t < j
                invariant
                    pos <= t <= j,
                    j < len,
                    len == self.residual.len(),
                    self@ == all,
                    len == all.len(),
                    line_vec@ == all.subrange(pos as int, t as int),
                decreases j - t,
            {
                line_vec.push(self.residual[t]);
                proof {
                    assert(line_vec@ =~= all.subrange(pos as int, t as int + 1));
                }
                t += 1;
            }
            proof {
                assert(line_vec@ =~= line);
            }
            let line_ok = bytes_to_string(&line_vec).is_some();
            if !line_ok {
                proof {
                    assert(!valid_utf8(line));
                    assert(!lines_valid(all));
                }
                bad = true;
            }
            // classify the completed line
            let is_data = j - pos >= 6 && self.residual[pos] == 100u8 && self.residual[pos + 1]
                == 97u8 && self.residual[pos + 2] == 116u8 && self.residual[pos + 3] == 97u8
                && self.residual[pos + 4] == 58u8 && self.residual[pos + 5] == 32u8;
            proof {
                if j - pos >= 6 {
                    assert(line.take(6) =~= all.subrange(pos as int, pos as int + 6));
                    if is_data {
                        assert(line.take(6) =~= data_prefix());
                    } else {
                        if line.take(6) == data_prefix() {
                            assert(all.subrange(pos as int, pos as int + 6)[0] == 100u8);
                            assert(all.subrange(pos as int, pos as int + 6)[1] == 97u8);
                            assert(all.subrange(pos as int, pos as int + 6)[2] == 116u8);
                            assert(all.subrange(pos as int, pos as int + 6)[3] == 97u8);
                            assert(all.subrange(pos as int, pos as int + 6)[4] == 58u8);
                            assert(all.subrange(pos as int, pos as int + 6)[5] == 32u8);
                            assert(false);
                        }
                    }
                }
                assert(is_data == is_data_line(line));
            }
            if is_data {
                let mut payload: Vec<u8> = Vec::new();
                let mut t2 = pos + 6;
                while t2 < j
                    invariant
                        pos + 6 <= t2 <= j,
                        j < len,
                        len == self.residual.len(),
                        self@ == all,
                        len == all.len(),
                        payload@ == all.subrange(pos as int + 6, t2 as int),
                    decreases j - t2,
                {
                    payload.push(self.residual[t2]);
                    proof {
                        assert(payload@ =~= all.subrange(pos as int + 6, t2 as int + 1));
                    }
                    t2 += 1;
                }
                proof {
                    assert(payload@ =~= payload_of(line));
                }
                match bytes_to_string(&payload) {
                    Some(s) => {
                        if !bad {
                            let ghost opre = out.deep_view();
                            let ghost sv = s@;
                            out.push(s);
                            proof {
                                assert(out.deep_view() =~= opre.push(sv));
                            }
                        }
                    }
                    None => {
                        proof {
                            assert(frame_payloads(tail)[0] == payload_of(line));
                            assert(frame_payloads(all).skip(done_p as int)[0] == frame_payloads(
                                all,
                            )[done_p as int]);
                            assert(frame_payloads(all)[done_p as int] == payload_of(line));
                            assert(!payloads_valid(all));
                        }
                        bad = true;
                    }
                }
            }
            proof {
                assert(line_residual(tail) == line_residual(rest));
                let fa = frame_payloads(all);
                let ca = complete_lines(all);
                if is_data_line(line) {
                    assert(frame_payloads(tail) == seq![payload_of(line)] + frame_payloads(rest));
                    assert(decoded_payloads(tail) =~= seq![decode_utf8(payload_of(line))]
                        + decoded_payloads(rest)) by {
                        assert forall|q: int|
                            0 <= q < decoded_payloads(tail).len() implies decoded_payloads(
                            tail,
                        )[q] == (seq![decode_utf8(payload_of(line))] + decoded_payloads(rest))[q] by {
                            if q == 0 {
                                assert(frame_payloads(tail)[0] == payload_of(line));
                            } else {
                                assert(frame_payloads(tail)[q] == frame_payloads(rest)[q - 1]);
                            }
                        }
                    }
                    assert(fa.skip(done_p as int)[0] == fa[done_p as int]);
                    assert(fa[done_p as int] == payload_of(line));
                    assert(fa.skip(done_p as int + 1) =~= frame_payloads(rest)) by {
                        assert forall|q: int|
                            0 <= q < frame_payloads(rest).len() implies fa.skip(done_p as int + 1)[q]
                            == frame_payloads(rest)[q] by {
                            assert(fa.skip(done_p as int)[q + 1] == frame_payloads(tail)[q + 1]);
                            assert(fa.skip(done_p as int)[q + 1] == fa[done_p + q + 1]);
                            assert(fa.skip(done_p as int + 1)[q] == fa[done_p + 1 + q]);
                            assert(frame_payloads(tail)[q + 1] == frame_payloads(rest)[q]);
                        }
                    }
                } else {
                    assert(frame_payloads(tail) == frame_payloads(rest));
                    assert(decoded_payloads(tail) =~= decoded_payloads(rest));
                }
                assert(ca.skip(done_l as int + 1) =~= complete_lines(rest)) by {
                    assert forall|q: int|
                        0 <= q < complete_lines(rest).len() implies ca.skip(done_l as int + 1)[q]
                        == complete_lines(rest)[q] by {
                        assert(ca.skip(done_l as int)[q + 1] == complete_lines(tail)[q + 1]);
                        assert(ca.skip(done_l as int)[q + 1] == ca[done_l + q + 1]);
                        assert(ca.skip(done_l as int + 1)[q] == ca[done_l + 1 + q]);
                        assert(complete_lines(tail)[q + 1] == complete_lines(rest)[q]);
                    }
                }
                assert(fa.skip(fa.len() - frame_payloads(rest).len()) == frame_payloads(rest));
                assert(ca.skip(ca.len() - complete_lines(rest).len()) == complete_lines(rest));
                if !bad {
                    assert(out.deep_view() + decoded_payloads(rest) =~= decoded_payloads(all));
                    assert(valid_utf8(line));
                }
            }
            pos = j + 1;
        }
        // drop everything before pos; the tail is the new residual
        let ghost tail = all.skip(pos as int);
        let mut new_res: Vec<u8> = Vec::new();
        let mut t = pos;
        while t < len
            invariant
                pos <= t <= len,
                len == self.residual.len(),
                self@ == all,
                new_res@ == all.subrange(pos as int, t as int),
            decreases len - t,
        {
            new_res.push(self.residual[t]);
            proof {
                assert(new_res@ =~= all.subrange(pos as int, t as int + 1));
            }
            t += 1;
        }
        proof {
            assert(new_res@ =~= tail);
        }
        self.residual = new_res;
        if bad {
            Err(StreamError::Encoding)
        } else {
            Ok(out)
        }
    }
}

} // verus!
