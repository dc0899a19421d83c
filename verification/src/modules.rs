//! Values that server modules serialize: a type ID and a stream of typed values.

use crate::bytes;
use crate::text;
use crate::text::with_number;
use crate::types;
use crate::types::{corrupt, Double, ModuleValue, ModuleValueV, RdbError, RdbErrorV, Single};
use crate::wire;
use crate::wire::{ByteSource, Cursor, Parsed, SourceV};
use vstd::prelude::*;

verus! {

/// Largest number of values that one module payload may hold.
pub const MAX_MODULE_VALUES: usize = 5_000_000;

/// Largest number of string bytes that one module payload may hold: 256 MiB.
pub const MAX_MODULE_STRING_BYTES: usize = 268_435_456;

/// The character of a module name for six bits: letters, digits, a hyphen, an underscore.
pub open spec fn name_char(d: int) -> char {
    if d < 26 {
        (65 + d) as char
    } else if d < 52 {
        (97 + d - 26) as char
    } else if d < 62 {
        (48 + d - 52) as char
    } else if d == 62 {
        '-'
    } else {
        '_'
    }
}

/// The last `n` characters of the name that `id` packs, six bits for each.
pub open spec fn name_chars(id: nat, n: nat) -> Seq<char>
    decreases n,
{
    if n == 0 {
        Seq::empty()
    } else {
        name_chars(id / 64, (n - 1) as nat).push(name_char((id % 64) as int))
    }
}

/// The module name in the upper 54 bits of a type ID.
pub open spec fn module_name(id: u64) -> Seq<char> {
    name_chars((id / 1024) as nat, 9)
}

/// The encoding version in the lower 10 bits of a type ID.
pub open spec fn module_version(id: u64) -> u32 {
    (id % 1024) as u32
}

proof fn lemma_name_chars_injective(a: nat, b: nat, n: nat)
    requires
        name_chars(a, n) == name_chars(b, n),
        a < power64(n),
        b < power64(n),
    ensures
        a == b,
    decreases n,
{
    if n > 0 {
        let x = name_chars(a, n);
        let y = name_chars(b, n);
        assert(x.last() == name_char((a % 64) as int));
        assert(y.last() == name_char((b % 64) as int));
        assert(x.drop_last() == name_chars(a / 64, (n - 1) as nat));
        assert(y.drop_last() == name_chars(b / 64, (n - 1) as nat));
        lemma_name_chars_injective(a / 64, b / 64, (n - 1) as nat);
        assert(a % 64 == b % 64);
    }
}

spec fn power64(n: nat) -> nat
    decreases n,
{
    if n == 0 {
        1
    } else {
        64 * power64((n - 1) as nat)
    }
}

/// A type ID can be told from its name and version.
pub proof fn law_module_id_unique(a: u64, b: u64)
    requires
        module_name(a) == module_name(b),
        module_version(a) == module_version(b),
    ensures
        a == b,
{
    reveal_with_fuel(power64, 10);
    assert(power64(9) == 0x40_0000_0000_0000);
    lemma_name_chars_injective((a / 1024) as nat, (b / 1024) as nat, 9);
}

/// A module name always has nine characters.
pub proof fn law_module_name_length(id: u64)
    ensures
        module_name(id).len() == 9,
{
    reveal_with_fuel(name_chars, 10);
}

fn name_byte(d: u64) -> (r: u8)
    requires
        d < 64,
    ensures
        r as char == name_char(d as int),
        r < 128,
{
    if d < 26 {
        65 + d as u8
    } else if d < 52 {
        97 + (d as u8 - 26)
    } else if d < 62 {
        48 + (d as u8 - 52)
    } else if d == 62 {
        45
    } else {
        95
    }
}

fn name_string(id: u64, n: usize) -> (r: String)
    ensures
        r@ == name_chars(id as nat, n as nat),
    decreases n,
{
    if n == 0 {
        String::new()
    } else {
        let mut s = name_string(id / 64, n - 1);
        let c: char = name_byte(id % 64) as char;
        s.push(c);
        s
    }
}

/// Splits a module type ID into the module name and the encoding version.
pub fn decode_module_id(module_id: u64) -> (r: (String, u32))
    ensures
        r.0@ == module_name(module_id),
        r.1 == module_version(module_id),
{
    (name_string(module_id / 1024, 9), (module_id % 1024) as u32)
}

/// The value at `p` in a module's stream, or `None` for the end of the stream.
pub open spec fn module_item(s: SourceV, p: int) -> Parsed<Option<ModuleValueV>> {
    match wire::plain_length(s, p) {
        Err(e) => Err(e),
        Ok((opcode, q)) => if opcode == 0 {
            Ok((None, q))
        } else if opcode == 1 {
            match wire::plain_length(s, q) {
                Err(e) => Err(e),
                Ok((n, q2)) => Ok(
                    (
                        Some(
                            ModuleValueV::SignedInt(
                                bytes::twos(n as int, 0x8000_0000_0000_0000) as i64,
                            ),
                        ),
                        q2,
                    ),
                ),
            }
        } else if opcode == 2 {
            match wire::plain_length(s, q) {
                Err(e) => Err(e),
                Ok((n, q2)) => Ok((Some(ModuleValueV::UnsignedInt(n)), q2)),
            }
        } else if opcode == 3 {
            match wire::take(s, q, 4) {
                Err(e) => Err(e),
                Ok((b, q2)) => Ok(
                    (Some(ModuleValueV::Float(Single { bits: bytes::le32(b, 0) as u32 })), q2),
                ),
            }
        } else if opcode == 4 {
            match wire::u64_le(s, q) {
                Err(e) => Err(e),
                Ok((bits, q2)) => Ok((Some(ModuleValueV::Double(Double { bits })), q2)),
            }
        } else if opcode == 5 {
            match wire::string(s, q) {
                Err(e) => Err(e),
                Ok((v, q2)) => Ok((Some(ModuleValueV::String(v)), q2)),
            }
        } else {
            Err(
                RdbErrorV::CorruptData(
                    "unknown module sub-opcode: "@ + text::dec(opcode as int) + ""@,
                ),
            )
        },
    }
}

pub proof fn lemma_module_item_moves_on(s: SourceV, p: int)
    ensures
        wire::moves_on(s, p, module_item(s, p)),
{
    wire::lemma_length_moves_on(s, p);
    if let Ok((_, q)) = wire::plain_length(s, p) {
        wire::lemma_length_moves_on(s, q);
        wire::lemma_string_moves_on(s, q);
    }
}

/// How many bytes a value counts toward the limit on strings.
pub open spec fn string_size(v: ModuleValueV) -> nat {
    match v {
        ModuleValueV::String(b) => b.len(),
        _ => 0,
    }
}

/// The values from `p` to the end of a module's stream, after those in `acc`, whose strings
/// take `used` bytes. There is a limit on the number of values and one on string bytes.
pub open spec fn module_list(s: SourceV, p: int, acc: Seq<ModuleValueV>, used: nat) -> Parsed<
    Seq<ModuleValueV>,
>
    decreases s.bytes.len() - p,
{
    match module_item(s, p) {
        Err(e) => Err(e),
        Ok((None, q)) => Ok((acc, q)),
        Ok((Some(v), q)) => {
            proof {
                lemma_module_item_moves_on(s, p);
            }
            if acc.len() >= MAX_MODULE_VALUES {
                Err(RdbErrorV::CorruptData("module value count exceeds 5000000 limit"@))
            } else if v is String && used + string_size(v) > MAX_MODULE_STRING_BYTES {
                Err(RdbErrorV::CorruptData("module string bytes exceed 268435456 limit"@))
            } else {
                module_list(s, q, acc.push(v), used + string_size(v))
            }
        },
    }
}

/// The place after a module's stream at `p`; without limits, since nothing is kept.
pub open spec fn module_skip(s: SourceV, p: int) -> Parsed<()>
    decreases s.bytes.len() - p,
{
    match module_item(s, p) {
        Err(e) => Err(e),
        Ok((None, q)) => Ok(((), q)),
        Ok((Some(_), q)) => {
            proof {
                lemma_module_item_moves_on(s, p);
            }
            module_skip(s, q)
        },
    }
}

/// Skipping a module's stream ends where reading it ends.
pub proof fn law_skip_as_read(s: SourceV, p: int)
    ensures
        module_list(s, p, Seq::empty(), 0) matches Ok((_, q)) ==> module_skip(s, p) == Ok::<
            ((), int),
            RdbErrorV,
        >(((), q)),
{
    lemma_skip_as_read(s, p, Seq::empty(), 0);
}

proof fn lemma_skip_as_read(s: SourceV, p: int, acc: Seq<ModuleValueV>, used: nat)
    ensures
        module_list(s, p, acc, used) matches Ok((_, q)) ==> module_skip(s, p) == Ok::<
            ((), int),
            RdbErrorV,
        >(((), q)),
    decreases s.bytes.len() - p,
{
    lemma_module_item_moves_on(s, p);
    if let Ok((Some(v), q)) = module_item(s, p) {
        lemma_skip_as_read(s, q, acc.push(v), used + string_size(v));
    }
}

pub proof fn lemma_module_skip_moves_on(s: SourceV, p: int)
    ensures
        wire::moves_on(s, p, module_skip(s, p)),
    decreases s.bytes.len() - p,
{
    lemma_module_item_moves_on(s, p);
    if let Ok((Some(_), q)) = module_item(s, p) {
        lemma_module_skip_moves_on(s, q);
    }
}

impl<R: ByteSource> Cursor<R> {
    /// Reads one value of a module's stream; `None` is the end of the stream.
    fn read_module_value(&mut self) -> (r: Result<Option<ModuleValue>, RdbError>)
        requires
            old(self).ready(),
        ensures
            final(self).ready(),
            final(self).source() == old(self).source(),
            wire::reading(
                r,
                |v: Option<ModuleValue>|
                    match v {
                        None => None,
                        Some(x) => Some(x@),
                    },
                final(self).pos(),
            ) == module_item(old(self).source(), old(self).pos()),
    {
        let opcode = match self.read_length_value() {
            Ok(n) => n,
            Err(e) => {
                return Err(e);
            },
        };
        if opcode == 0 {
            return Ok(None);
        }
        if opcode == 1 {
            return match self.read_length_value() {
                Ok(n) => Ok(Some(ModuleValue::SignedInt(bytes::signed64(n)))),
                Err(e) => Err(e),
            };
        }
        if opcode == 2 {
            return match self.read_length_value() {
                Ok(n) => Ok(Some(ModuleValue::UnsignedInt(n))),
                Err(e) => Err(e),
            };
        }
        if opcode == 3 {
            return match self.read_exact_vec(4) {
                Ok(b) => Ok(
                    Some(
                        ModuleValue::Float(Single { bits: bytes::get_le32(b.as_slice(), 0) }),
                    ),
                ),
                Err(e) => Err(e),
            };
        }
        if opcode == 4 {
            return match self.read_u64_le() {
                Ok(bits) => Ok(Some(ModuleValue::Double(Double { bits }))),
                Err(e) => Err(e),
            };
        }
        if opcode == 5 {
            return match self.read_string() {
                Ok(v) => Ok(Some(ModuleValue::String(v))),
                Err(e) => Err(e),
            };
        }
        Err(RdbError::CorruptData(with_number("unknown module sub-opcode: ", opcode, "")))
    }

    /// Reads the values of a module's stream.
    pub fn read_module_data(&mut self) -> (r: Result<Vec<ModuleValue>, RdbError>)
        requires
            old(self).ready(),
        ensures
            final(self).ready(),
            final(self).source() == old(self).source(),
            wire::reading(r, |v: Vec<ModuleValue>| types::module_values(v@), final(self).pos())
                == module_list(old(self).source(), old(self).pos(), Seq::empty(), 0),
    {
        let ghost s = self.source();
        let mut out: Vec<ModuleValue> = Vec::new();
        let mut used: usize = 0;
        assert(types::module_values(out@) == Seq::<ModuleValueV>::empty());
        loop
            invariant
                self.ready(),
                self.source() == old(self).source(),
                s == old(self).source(),
                used <= MAX_MODULE_STRING_BYTES,
                module_list(s, self.pos(), types::module_values(out@), used as nat)
                    == module_list(s, old(self).pos(), Seq::empty(), 0),
            decreases s.bytes.len() - self.pos(),
        {
            proof {
                lemma_module_item_moves_on(s, self.pos());
            }
            let v = match self.read_module_value() {
                Err(e) => {
                    return Err(e);
                },
                Ok(None) => {
                    return Ok(out);
                },
                Ok(Some(v)) => v,
            };
            if out.len() >= MAX_MODULE_VALUES {
                return Err(corrupt("module value count exceeds 5000000 limit"));
            }
            if let ModuleValue::String(b) = &v {
                if b.len() > MAX_MODULE_STRING_BYTES - used {
                    return Err(corrupt("module string bytes exceed 268435456 limit"));
                }
                used = used + b.len();
            }
            let ghost before = out@;
            let ghost x = v@;
            out.push(v);
            assert(types::module_values(out@) == types::module_values(before).push(x));
        }
    }

    /// Passes over a module's stream.
    pub fn skip_module_data(&mut self) -> (r: Result<(), RdbError>)
        requires
            old(self).ready(),
        ensures
            final(self).ready(),
            final(self).source() == old(self).source(),
            wire::reading(r, |u: ()| u, final(self).pos()) == module_skip(
                old(self).source(),
                old(self).pos(),
            ),
    {
        let ghost s = self.source();
        loop
            invariant
                self.ready(),
                self.source() == old(self).source(),
                s == old(self).source(),
                module_skip(s, self.pos()) == module_skip(s, old(self).pos()),
            decreases s.bytes.len() - self.pos(),
        {
            proof {
                lemma_module_item_moves_on(s, self.pos());
            }
            match self.read_module_value() {
                Err(e) => {
                    return Err(e);
                },
                Ok(None) => {
                    return Ok(());
                },
                Ok(Some(_)) => {},
            }
        }
    }
}

} // verus!
