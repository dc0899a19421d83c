//! Stream values: listpacks of entries, and the metadata and consumer groups after them.

use crate::bytes;
use crate::opcodes::{RDB_TYPE_STREAM_LISTPACKS_2, RDB_TYPE_STREAM_LISTPACKS_3};
use crate::stream;
use crate::stream::MAX_STREAM_ENTRIES;
use crate::text;
use crate::text::{dec_string, join3, with_number, with_numbers};
use crate::types;
use crate::types::{RdbError, RdbErrorV, StreamData, StreamDataV, StreamEntry, StreamEntryV};
use crate::wire;
use crate::wire::{ByteSource, Cursor, Parsed, SourceV};
use vstd::prelude::*;

verus! {

/// What follows a reading whose value is dropped.
pub open spec fn after<T, U>(r: Parsed<T>, next: spec_fn(int) -> Parsed<U>) -> Parsed<U> {
    match r {
        Ok((_, q)) => next(q),
        Err(e) => Err(e),
    }
}

/// A reading whose value is dropped.
pub open spec fn passed<T>(r: Parsed<T>) -> Parsed<()> {
    match r {
        Ok((_, q)) => Ok(((), q)),
        Err(e) => Err(e),
    }
}

/// Reading a plain length.
pub open spec fn length_fn(s: SourceV) -> spec_fn(int) -> Parsed<u64> {
    |q: int| wire::plain_length(s, q)
}

/// The key and the blob of a listpack.
pub open spec fn listpack_pair(s: SourceV, p: int) -> Parsed<(Seq<u8>, Seq<u8>)> {
    match wire::string(s, p) {
        Err(e) => Err(e),
        Ok((id, q)) => match wire::string(s, q) {
            Err(e) => Err(e),
            Ok((blob, q2)) => Ok(((id, blob), q2)),
        },
    }
}

/// Reading the key and the blob of a listpack.
pub open spec fn pair_fn(s: SourceV) -> spec_fn(int) -> Parsed<(Seq<u8>, Seq<u8>)> {
    |q: int| listpack_pair(s, q)
}

/// The entries of listpacks in a row; the first that is corrupt makes them all corrupt.
pub open spec fn decoded(pairs: Seq<(Seq<u8>, Seq<u8>)>) -> Result<Seq<StreamEntryV>, RdbErrorV>
    decreases pairs.len(),
{
    if pairs.len() == 0 {
        Ok(Seq::empty())
    } else {
        match decoded(pairs.drop_last()) {
            Err(e) => Err(e),
            Ok(acc) => {
                let (id, blob) = pairs.last();
                if id.len() != 16 {
                    Err(
                        RdbErrorV::CorruptData(
                            "stream master ID is "@ + text::dec(id.len() as int)
                                + " bytes, expected exactly 16"@,
                        ),
                    )
                } else {
                    match stream::stream_listpack(
                        bytes::be64(id, 0) as u64,
                        bytes::be64(id, 8) as u64,
                        blob,
                        if acc.len() <= MAX_STREAM_ENTRIES {
                            MAX_STREAM_ENTRIES - acc.len()
                        } else {
                            0
                        },
                    ) {
                        Err(e) => Err(e),
                        Ok(more) => Ok(acc + more),
                    }
                }
            },
        }
    }
}

/// A stream never decodes to more entries than the limit.
pub proof fn law_stream_limit(pairs: Seq<(Seq<u8>, Seq<u8>)>)
    ensures
        decoded(pairs) matches Ok(v) ==> v.len() <= MAX_STREAM_ENTRIES,
    decreases pairs.len(),
{
    if pairs.len() > 0 {
        law_stream_limit(pairs.drop_last());
        if let Ok(acc) = decoded(pairs.drop_last()) {
            let (id, blob) = pairs.last();
            stream::law_stream_budget(
                bytes::be64(id, 0) as u64,
                bytes::be64(id, 8) as u64,
                blob,
                MAX_STREAM_ENTRIES - acc.len(),
            );
        }
    }
}

/// A pending entry of a consumer group: an ID, a time, and a delivery count.
pub open spec fn pending_entry(s: SourceV, p: int) -> Parsed<()> {
    after(
        wire::take(s, p, 16),
        |q: int| after(wire::i64_le(s, q), |q2: int| passed(wire::plain_length(s, q2))),
    )
}

/// A consumer: a name, one or two times, and the IDs of its pending entries.
pub open spec fn consumer(s: SourceV, t: u8, p: int) -> Parsed<()> {
    after(
        wire::string(s, p),
        |q: int|
            after(
                wire::i64_le(s, q),
                |q2: int|
                    after(
                        if t >= RDB_TYPE_STREAM_LISTPACKS_3 {
                            passed(wire::i64_le(s, q2))
                        } else {
                            Ok(((), q2))
                        },
                        |q3: int|
                            match wire::size(s, q3, "stream consumer PEL count"@) {
                                Err(e) => Err(e),
                                Ok((n, q4)) => passed(wire::repeat(id_fn(s), q4, n)),
                            },
                    ),
            ),
    )
}

/// Reading an ID of sixteen bytes.
pub open spec fn id_fn(s: SourceV) -> spec_fn(int) -> Parsed<Seq<u8>> {
    |q: int| wire::take(s, q, 16)
}

/// Reading a pending entry.
pub open spec fn pending_fn(s: SourceV) -> spec_fn(int) -> Parsed<()> {
    |q: int| pending_entry(s, q)
}

/// Reading a consumer.
pub open spec fn consumer_fn(s: SourceV, t: u8) -> spec_fn(int) -> Parsed<()> {
    |q: int| consumer(s, t, q)
}

/// The end of a consumer group: its consumers.
pub open spec fn group_consumers(s: SourceV, t: u8, p: int) -> Parsed<()> {
    match wire::size(s, p, "stream consumer count"@) {
        Err(e) => Err(e),
        Ok((n, q)) => passed(wire::repeat(consumer_fn(s, t), q, n)),
    }
}

/// A consumer group: a name, two or three lengths, pending entries, and consumers.
pub open spec fn group(s: SourceV, t: u8, p: int) -> Parsed<()> {
    match wire::string(s, p) {
        Err(e) => Err(e),
        Ok((_, q)) => match wire::repeat(
            length_fn(s),
            q,
            if t >= RDB_TYPE_STREAM_LISTPACKS_2 {
                3
            } else {
                2
            },
        ) {
            Err(e) => Err(e),
            Ok((_, q2)) => match wire::size(s, q2, "stream PEL count"@) {
                Err(e) => Err(e),
                Ok((n, q3)) => match wire::repeat(pending_fn(s), q3, n) {
                    Err(e) => Err(e),
                    Ok((_, q4)) => group_consumers(s, t, q4),
                },
            },
        },
    }
}

/// Reading a consumer group.
pub open spec fn group_fn(s: SourceV, t: u8) -> spec_fn(int) -> Parsed<()> {
    |q: int| group(s, t, q)
}

/// The consumer groups at `p`.
pub open spec fn groups(s: SourceV, t: u8, p: int) -> Parsed<()> {
    match wire::size(s, p, "stream cgroup count"@) {
        Err(e) => Err(e),
        Ok((n, q)) => passed(wire::repeat(group_fn(s, t), q, n)),
    }
}

/// The stream at `p`: its listpacks, its length and last ID, in later versions five more
/// lengths, and its consumer groups. All of it is read before a corrupt listpack is
/// reported, and then a length that is not the number of entries.
pub open spec fn stream_value(s: SourceV, t: u8, p: int) -> Parsed<StreamDataV> {
    match wire::size(s, p, "stream listpack count"@) {
        Err(e) => Err(e),
        Ok((n, q)) => match wire::repeat(pair_fn(s), q, n) {
            Err(e) => Err(e),
            Ok((pairs, q2)) => match wire::repeat(length_fn(s), q2, 3) {
                Err(e) => Err(e),
                Ok((meta, q3)) => match wire::repeat(
                    length_fn(s),
                    q3,
                    if t >= RDB_TYPE_STREAM_LISTPACKS_2 {
                        5
                    } else {
                        0
                    },
                ) {
                    Err(e) => Err(e),
                    Ok((_, q4)) => match groups(s, t, q4) {
                        Err(e) => Err(e),
                        Ok((_, q5)) => match decoded(pairs) {
                            Err(e) => Err(e),
                            Ok(entries) => if meta[0] != entries.len() {
                                Err(
                                    RdbErrorV::CorruptData(
                                        "stream length metadata ("@ + text::dec(meta[0] as int)
                                            + ") does not match decoded entry count ("@ + text::dec(
                                            entries.len() as int,
                                        ) + ")"@,
                                    ),
                                )
                            } else {
                                Ok(
                                    (
                                        StreamDataV {
                                            entries,
                                            length: meta[0],
                                            last_id: stream::stream_id(
                                                meta[1] as int,
                                                meta[2] as int,
                                            ),
                                        },
                                        q5,
                                    ),
                                )
                            },
                        },
                    },
                },
            },
        },
    }
}

/// The place after the stream at `p`, its consumer groups included, whatever its listpacks
/// hold.
pub open spec fn stream_end(s: SourceV, t: u8, p: int) -> Parsed<()> {
    match wire::size(s, p, "stream listpack count"@) {
        Err(e) => Err(e),
        Ok((n, q)) => match wire::repeat(pair_fn(s), q, n) {
            Err(e) => Err(e),
            Ok((_, q2)) => match wire::repeat(length_fn(s), q2, 3) {
                Err(e) => Err(e),
                Ok((_, q3)) => match wire::repeat(
                    length_fn(s),
                    q3,
                    if t >= RDB_TYPE_STREAM_LISTPACKS_2 {
                        5
                    } else {
                        0
                    },
                ) {
                    Err(e) => Err(e),
                    Ok((_, q4)) => groups(s, t, q4),
                },
            },
        },
    }
}

/// The length that a stream states is the number of its entries.
pub proof fn law_stream_length(s: SourceV, t: u8, p: int)
    ensures
        stream_value(s, t, p) matches Ok((data, _)) ==> data.length == data.entries.len()
            && data.entries.len() <= MAX_STREAM_ENTRIES,
{
    if let Ok((n, q)) = wire::size(s, p, "stream listpack count"@) {
        if let Ok((pairs, _)) = wire::repeat(pair_fn(s), q, n) {
            law_stream_limit(pairs);
        }
    }
}

/// Decodes one more listpack of a stream.
fn decode_pair(id: &Vec<u8>, blob: &Vec<u8>, have: usize) -> (r: Result<Vec<StreamEntry>, RdbError>)
    ensures
        (match r {
            Ok(v) => Ok(types::stream_entries(v@)),
            Err(e) => Err(e@),
        }) == (if id@.len() != 16 {
            Err(
                RdbErrorV::CorruptData(
                    "stream master ID is "@ + text::dec(id@.len() as int)
                        + " bytes, expected exactly 16"@,
                ),
            )
        } else {
            stream::stream_listpack(
                bytes::be64(id@, 0) as u64,
                bytes::be64(id@, 8) as u64,
                blob@,
                if have <= MAX_STREAM_ENTRIES {
                    MAX_STREAM_ENTRIES - have
                } else {
                    0
                },
            )
        }),
{
    if id.len() != 16 {
        return Err(
            RdbError::CorruptData(
                with_number(
                    "stream master ID is ",
                    id.len() as u64,
                    " bytes, expected exactly 16",
                ),
            ),
        );
    }
    let ms: u64 = bytes::get_be64(id.as_slice(), 0);
    let seq: u64 = bytes::get_be64(id.as_slice(), 8);
    let budget: usize = MAX_STREAM_ENTRIES.saturating_sub(have);
    stream::decode_stream_listpack(ms, seq, blob.as_slice(), budget)
}

impl<R: ByteSource> Cursor<R> {
    fn read_lengths(&mut self, n: usize) -> (r: Result<Vec<u64>, RdbError>)
        requires
            old(self).ready(),
        ensures
            final(self).ready(),
            final(self).source() == old(self).source(),
            wire::reading(r, |v: Vec<u64>| v@, final(self).pos()) == wire::repeat(
                length_fn(old(self).source()),
                old(self).pos(),
                n as nat,
            ),
            r matches Ok(v) ==> v@.len() == n,
    {
        let ghost s = self.source();
        let ghost p = self.pos();
        let mut out: Vec<u64> = Vec::new();
        let mut i: usize = 0;
        while i < n
            invariant
                i <= n,
                out@.len() == i,
                self.ready(),
                self.source() == old(self).source(),
                s == old(self).source(),
                p == old(self).pos(),
                wire::repeat(length_fn(s), p, i as nat) == Ok::<(Seq<u64>, int), RdbErrorV>(
                    (out@, self.pos()),
                ),
            decreases n - i,
        {
            match self.read_length_value() {
                Ok(v) => {
                    out.push(v);
                },
                Err(e) => {
                    proof {
                        wire::lemma_repeat_fails(length_fn(s), p, (i + 1) as nat, n as nat);
                    }
                    return Err(e);
                },
            }
            i += 1;
        }
        Ok(out)
    }

    /// Passes over `n` plain lengths.
    pub fn skip_lengths(&mut self, n: usize) -> (r: Result<(), RdbError>)
        requires
            old(self).ready(),
        ensures
            final(self).ready(),
            final(self).source() == old(self).source(),
            wire::reading(r, |u: ()| u, final(self).pos()) == passed(
                wire::repeat(length_fn(old(self).source()), old(self).pos(), n as nat),
            ),
    {
        let ghost s = self.source();
        let ghost p = self.pos();
        let ghost mut seen: Seq<u64> = Seq::empty();
        let mut i: usize = 0;
        while i < n
            invariant
                i <= n,
                self.ready(),
                self.source() == old(self).source(),
                s == old(self).source(),
                p == old(self).pos(),
                wire::repeat(length_fn(s), p, i as nat) == Ok::<(Seq<u64>, int), RdbErrorV>(
                    (seen, self.pos()),
                ),
            decreases n - i,
        {
            match self.read_length_value() {
                Ok(v) => {
                    proof {
                        seen = seen.push(v);
                    }
                },
                Err(e) => {
                    proof {
                        wire::lemma_repeat_fails(length_fn(s), p, (i + 1) as nat, n as nat);
                    }
                    return Err(e);
                },
            }
            i += 1;
        }
        Ok(())
    }

    fn skip_ids(&mut self, n: usize) -> (r: Result<(), RdbError>)
        requires
            old(self).ready(),
        ensures
            final(self).ready(),
            final(self).source() == old(self).source(),
            wire::reading(r, |u: ()| u, final(self).pos()) == passed(
                wire::repeat(id_fn(old(self).source()), old(self).pos(), n as nat),
            ),
    {
        let ghost s = self.source();
        let ghost p = self.pos();
        let ghost mut seen: Seq<Seq<u8>> = Seq::empty();
        let mut i: usize = 0;
        while i < n
            invariant
                i <= n,
                self.ready(),
                self.source() == old(self).source(),
                s == old(self).source(),
                p == old(self).pos(),
                wire::repeat(id_fn(s), p, i as nat) == Ok::<(Seq<Seq<u8>>, int), RdbErrorV>(
                    (seen, self.pos()),
                ),
            decreases n - i,
        {
            match self.read_exact_vec(16) {
                Ok(v) => {
                    proof {
                        seen = seen.push(v@);
                    }
                },
                Err(e) => {
                    proof {
                        wire::lemma_repeat_fails(id_fn(s), p, (i + 1) as nat, n as nat);
                    }
                    return Err(e);
                },
            }
            i += 1;
        }
        Ok(())
    }

    fn skip_pending_entry(&mut self) -> (r: Result<(), RdbError>)
        requires
            old(self).ready(),
        ensures
            final(self).ready(),
            final(self).source() == old(self).source(),
            wire::reading(r, |u: ()| u, final(self).pos()) == pending_entry(
                old(self).source(),
                old(self).pos(),
            ),
    {
        match self.read_exact_vec(16) {
            Ok(_) => {},
            Err(e) => {
                return Err(e);
            },
        }
        match self.read_i64_le() {
            Ok(_) => {},
            Err(e) => {
                return Err(e);
            },
        }
        match self.read_length_value() {
            Ok(_) => Ok(()),
            Err(e) => Err(e),
        }
    }

    fn skip_pending(&mut self, n: usize) -> (r: Result<(), RdbError>)
        requires
            old(self).ready(),
        ensures
            final(self).ready(),
            final(self).source() == old(self).source(),
            wire::reading(r, |u: ()| u, final(self).pos()) == passed(
                wire::repeat(pending_fn(old(self).source()), old(self).pos(), n as nat),
            ),
    {
        let ghost s = self.source();
        let ghost p = self.pos();
        let ghost mut seen: Seq<()> = Seq::empty();
        let mut i: usize = 0;
        while i < n
            invariant
                i <= n,
                self.ready(),
                self.source() == old(self).source(),
                s == old(self).source(),
                p == old(self).pos(),
                wire::repeat(pending_fn(s), p, i as nat) == Ok::<(Seq<()>, int), RdbErrorV>(
                    (seen, self.pos()),
                ),
            decreases n - i,
        {
            match self.skip_pending_entry() {
                Ok(_) => {
                    proof {
                        seen = seen.push(());
                    }
                },
                Err(e) => {
                    proof {
                        wire::lemma_repeat_fails(pending_fn(s), p, (i + 1) as nat, n as nat);
                    }
                    return Err(e);
                },
            }
            i += 1;
        }
        Ok(())
    }

    fn skip_consumer(&mut self, type_code: u8) -> (r: Result<(), RdbError>)
        requires
            old(self).ready(),
        ensures
            final(self).ready(),
            final(self).source() == old(self).source(),
            wire::reading(r, |u: ()| u, final(self).pos()) == consumer(
                old(self).source(),
                type_code,
                old(self).pos(),
            ),
    {
        match self.read_string() {
            Ok(_) => {},
            Err(e) => {
                return Err(e);
            },
        }
        match self.read_i64_le() {
            Ok(_) => {},
            Err(e) => {
                return Err(e);
            },
        }
        if type_code >= RDB_TYPE_STREAM_LISTPACKS_3 {
            match self.read_i64_le() {
                Ok(_) => {},
                Err(e) => {
                    return Err(e);
                },
            }
        }
        match self.read_size("stream consumer PEL count") {
            Ok(n) => self.skip_ids(n),
            Err(e) => Err(e),
        }
    }

    fn skip_consumers(&mut self, type_code: u8, n: usize) -> (r: Result<(), RdbError>)
        requires
            old(self).ready(),
        ensures
            final(self).ready(),
            final(self).source() == old(self).source(),
            wire::reading(r, |u: ()| u, final(self).pos()) == passed(
                wire::repeat(
                    consumer_fn(old(self).source(), type_code),
                    old(self).pos(),
                    n as nat,
                ),
            ),
    {
        let ghost s = self.source();
        let ghost p = self.pos();
        let ghost mut seen: Seq<()> = Seq::empty();
        let mut i: usize = 0;
        while i < n
            invariant
                i <= n,
                self.ready(),
                self.source() == old(self).source(),
                s == old(self).source(),
                p == old(self).pos(),
                wire::repeat(consumer_fn(s, type_code), p, i as nat) == Ok::<
                    (Seq<()>, int),
                    RdbErrorV,
                >((seen, self.pos())),
            decreases n - i,
        {
            match self.skip_consumer(type_code) {
                Ok(_) => {
                    proof {
                        seen = seen.push(());
                    }
                },
                Err(e) => {
                    proof {
                        wire::lemma_repeat_fails(
                            consumer_fn(s, type_code),
                            p,
                            (i + 1) as nat,
                            n as nat,
                        );
                    }
                    return Err(e);
                },
            }
            i += 1;
        }
        Ok(())
    }

    fn skip_group(&mut self, type_code: u8) -> (r: Result<(), RdbError>)
        requires
            old(self).ready(),
        ensures
            final(self).ready(),
            final(self).source() == old(self).source(),
            wire::reading(r, |u: ()| u, final(self).pos()) == group(
                old(self).source(),
                type_code,
                old(self).pos(),
            ),
    {
        match self.read_string() {
            Ok(_) => {},
            Err(e) => {
                return Err(e);
            },
        }
        let count: usize = if type_code >= RDB_TYPE_STREAM_LISTPACKS_2 {
            3
        } else {
            2
        };
        match self.skip_lengths(count) {
            Ok(_) => {},
            Err(e) => {
                return Err(e);
            },
        }
        match self.read_size("stream PEL count") {
            Ok(n) => match self.skip_pending(n) {
                Ok(_) => {},
                Err(e) => {
                    return Err(e);
                },
            },
            Err(e) => {
                return Err(e);
            },
        }
        match self.read_size("stream consumer count") {
            Ok(n) => self.skip_consumers(type_code, n),
            Err(e) => Err(e),
        }
    }

    /// Passes over the consumer groups of a stream.
    pub fn skip_stream_consumer_groups(&mut self, type_code: u8) -> (r: Result<(), RdbError>)
        requires
            old(self).ready(),
        ensures
            final(self).ready(),
            final(self).source() == old(self).source(),
            wire::reading(r, |u: ()| u, final(self).pos()) == groups(
                old(self).source(),
                type_code,
                old(self).pos(),
            ),
    {
        let n = match self.read_size("stream cgroup count") {
            Ok(n) => n,
            Err(e) => {
                return Err(e);
            },
        };
        let ghost s = self.source();
        let ghost p = self.pos();
        let ghost mut seen: Seq<()> = Seq::empty();
        let mut i: usize = 0;
        while i < n
            invariant
                i <= n,
                self.ready(),
                self.source() == old(self).source(),
                s == old(self).source(),
                wire::size(s, old(self).pos(), "stream cgroup count"@) == Ok::<
                    (nat, int),
                    RdbErrorV,
                >((n as nat, p)),
                wire::repeat(group_fn(s, type_code), p, i as nat) == Ok::<
                    (Seq<()>, int),
                    RdbErrorV,
                >((seen, self.pos())),
            decreases n - i,
        {
            match self.skip_group(type_code) {
                Ok(_) => {
                    proof {
                        seen = seen.push(());
                    }
                },
                Err(e) => {
                    proof {
                        wire::lemma_repeat_fails(
                            group_fn(s, type_code),
                            p,
                            (i + 1) as nat,
                            n as nat,
                        );
                    }
                    return Err(e);
                },
            }
            i += 1;
        }
        Ok(())
    }

    /// Reads the listpacks of a stream, each decoded as it is read. A corrupt one is
    /// reported in the second result, and those after it are only passed over.
    fn read_listpacks(&mut self, n: usize) -> (r: Result<
        (Vec<StreamEntry>, Option<RdbError>),
        RdbError,
    >)
        requires
            old(self).ready(),
        ensures
            final(self).ready(),
            final(self).source() == old(self).source(),
            match wire::repeat(pair_fn(old(self).source()), old(self).pos(), n as nat) {
                Err(e) => r matches Err(x) && x@ == e,
                Ok((pairs, q)) => r matches Ok((v, bad)) && final(self).pos() == q && (match bad {
                    None => decoded(pairs) == Ok::<Seq<StreamEntryV>, RdbErrorV>(
                        types::stream_entries(v@),
                    ),
                    Some(e) => decoded(pairs) == Err::<Seq<StreamEntryV>, RdbErrorV>(e@),
                }),
            },
    {
        let ghost s = self.source();
        let ghost p = self.pos();
        let ghost mut pairs: Seq<(Seq<u8>, Seq<u8>)> = Seq::empty();
        let mut all: Vec<StreamEntry> = Vec::new();
        let mut bad: Option<RdbError> = None;
        let mut i: usize = 0;
        assert(types::stream_entries(all@) == Seq::<StreamEntryV>::empty());
        while i < n
            invariant
                i <= n,
                self.ready(),
                self.source() == old(self).source(),
                s == old(self).source(),
                p == old(self).pos(),
                wire::repeat(pair_fn(s), p, i as nat) == Ok::<
                    (Seq<(Seq<u8>, Seq<u8>)>, int),
                    RdbErrorV,
                >((pairs, self.pos())),
                match bad {
                    None => decoded(pairs) == Ok::<Seq<StreamEntryV>, RdbErrorV>(
                        types::stream_entries(all@),
                    ),
                    Some(e) => decoded(pairs) == Err::<Seq<StreamEntryV>, RdbErrorV>(e@),
                },
            decreases n - i,
        {
            let id = match self.read_string() {
                Ok(v) => v,
                Err(e) => {
                    proof {
                        wire::lemma_repeat_fails(pair_fn(s), p, (i + 1) as nat, n as nat);
                    }
                    return Err(e);
                },
            };
            let blob = match self.read_string() {
                Ok(v) => v,
                Err(e) => {
                    proof {
                        wire::lemma_repeat_fails(pair_fn(s), p, (i + 1) as nat, n as nat);
                    }
                    return Err(e);
                },
            };
            let ghost before = pairs;
            proof {
                pairs = pairs.push((id@, blob@));
                assert(pairs.drop_last() == before);
            }
            if bad.is_none() {
                match decode_pair(&id, &blob, all.len()) {
                    Ok(mut more) => {
                        let ghost x = all@;
                        let ghost y = more@;
                        all.append(&mut more);
                        assert(all@ == x + y);
                        assert(types::stream_entries(all@) == types::stream_entries(x)
                            + types::stream_entries(y));
                    },
                    Err(e) => {
                        bad = Some(e);
                    },
                }
            }
            i += 1;
        }
        Ok((all, bad))
    }

    /// Reads a stream value. All of it has been read, consumer groups included, when a
    /// corrupt listpack or a wrong length is reported.
    pub fn read_stream(&mut self, type_code: u8) -> (r: Result<StreamData, RdbError>)
        requires
            old(self).ready(),
        ensures
            final(self).ready(),
            final(self).source() == old(self).source(),
            stream_end(old(self).source(), type_code, old(self).pos()) matches Ok((_, q))
                ==> final(self).pos() == q,
            wire::reading(r, |d: StreamData| d@, final(self).pos()) == stream_value(
                old(self).source(),
                type_code,
                old(self).pos(),
            ),
    {
        let n = match self.read_size("stream listpack count") {
            Ok(n) => n,
            Err(e) => {
                return Err(e);
            },
        };
        let (entries, bad) = match self.read_listpacks(n) {
            Ok(x) => x,
            Err(e) => {
                return Err(e);
            },
        };
        let meta = match self.read_lengths(3) {
            Ok(v) => v,
            Err(e) => {
                return Err(e);
            },
        };
        let extra: usize = if type_code >= RDB_TYPE_STREAM_LISTPACKS_2 {
            5
        } else {
            0
        };
        match self.skip_lengths(extra) {
            Ok(_) => {},
            Err(e) => {
                return Err(e);
            },
        }
        match self.skip_stream_consumer_groups(type_code) {
            Ok(_) => {},
            Err(e) => {
                return Err(e);
            },
        }
        if let Some(e) = bad {
            return Err(e);
        }
        if meta[0] != entries.len() as u64 {
            return Err(
                RdbError::CorruptData(
                    with_numbers(
                        "stream length metadata (",
                        meta[0],
                        ") does not match decoded entry count (",
                        entries.len() as u64,
                        ")",
                    ),
                ),
            );
        }
        let last_id = join3(dec_string(meta[1]).as_str(), "-", dec_string(meta[2]).as_str());
        Ok(StreamData { entries, length: meta[0], last_id })
    }
}

} // verus!
