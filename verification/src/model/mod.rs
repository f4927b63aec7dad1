//! Model-side configuration: execution devices, categories and category id remapping.

pub mod category;

pub use category::{Category, CategoryMapping};

use std::borrow::Cow;
use std::collections::HashMap;

use vstd::prelude::*;

use crate::error::Error;

verus! {

/// Whether this build has CUDA support (the `cuda` build feature). It is on: the crate is built
/// with the CUDA driver bindings, and the CUDA backend and device selection depend on it.
pub const CUDA: bool = true;

/// Execution device for the model.
///
/// For Python, use string device names like "cpu", "cuda:0", "mps", "auto".
#[derive(Debug, Clone, Copy, PartialEq, Eq, Structural, Hash)]
pub enum Device {
    /// CPU execution.
    Cpu,
    /// CUDA GPU execution with device index.
    Cuda(u32),
    /// Apple Metal GPU (MPS).
    Mps,
    /// Automatic device selection (prefers GPU if available).
    Auto,
}

/// The decimal digit character for `d < 10`.
pub open spec fn digit_char(d: int) -> char {
    (48 + d) as char
}

/// Decimal representation of `n`, most significant digit first, without leading zeros.
pub open spec fn decimal(n: nat) -> Seq<char>
    decreases n,
{
    if n < 10 {
        seq![digit_char(n as int)]
    } else {
        decimal(n / 10).push(digit_char((n % 10) as int))
    }
}

/// The value of a string under `u32::from_str`: an optional `+` sign followed by at least one
/// ASCII digit and nothing else, with a value that fits in a `u32`.
pub open spec fn decimal_value(s: Seq<char>) -> Option<u32> {
    let digits = if s.len() > 0 && s[0] == '+' {
        s.drop_first()
    } else {
        s
    };
    if digits.len() > 0 && all_digits(digits) && digits_value(digits) <= u32::MAX {
        Some(digits_value(digits) as u32)
    } else {
        None
    }
}

/// The number written by a sequence of ASCII digits.
pub open spec fn digits_value(s: Seq<char>) -> nat
    decreases s.len(),
{
    if s.len() == 0 {
        0
    } else {
        (digits_value(s.drop_last()) * 10 + (s.last() as int - 48)) as nat
    }
}

/// The unicode lowercase form of a string, as `str::to_lowercase` computes it.
pub uninterp spec fn lowercase_of(s: Seq<char>) -> Seq<char>;

/// `str::to_lowercase`: returns the lowercase equivalent of `s` by the Unicode `Lowercase`
/// property. The result is named `lowercase_of(s@)`; nothing more of it is claimed.
#[verifier::external_body]
pub(crate) fn lowercase(s: &str) -> (r: String)
    ensures
        r@ == lowercase_of(s@),
{
    s.to_lowercase()
}

/// All characters of `d` are ASCII digits.
pub open spec fn all_digits(d: Seq<char>) -> bool {
    forall|i: int| 0 <= i < d.len() ==> '0' <= #[trigger] d[i] <= '9'
}

/// A longer run of digits is worth at least as much as its prefix.
proof fn lemma_digits_value_grows(d: Seq<char>, j: int, k: int)
    requires
        all_digits(d),
        0 <= j <= k <= d.len(),
    ensures
        digits_value(d.subrange(0, j)) <= digits_value(d.subrange(0, k)),
    decreases k - j,
{
    if j < k {
        lemma_digits_value_grows(d, j, k - 1);
        let p = d.subrange(0, k);
        assert(p.drop_last() =~= d.subrange(0, k - 1));
        assert('0' <= p.last() <= '9');
    }
}

/// The digits of `s` from character `from` on, read as a number: `Some` of their value when
/// there is at least one, all are ASCII digits, and the value is at most `limit`.
pub(crate) fn parse_digits(s: &str, from: usize, limit: u64) -> (r: Option<u64>)
    requires
        from <= s@.len(),
    ensures
        ({
            let d = s@.subrange(from as int, s@.len() as int);
            r == if d.len() > 0 && all_digits(d) && digits_value(d) <= limit {
                Some(digits_value(d) as u64)
            } else {
                None::<u64>
            }
        }),
{
    let n = s.unicode_len();
    let ghost d = s@.subrange(from as int, s@.len() as int);
    if from == n {
        return None;
    }
    let mut acc: u64 = 0;
    let mut i: usize = from;
    while i < n
        invariant
            n == s@.len(),
            from <= i <= n,
            d == s@.subrange(from as int, s@.len() as int),
            all_digits(d.subrange(0, i - from)),
            acc == digits_value(d.subrange(0, i - from)),
            acc <= limit,
        decreases n - i,
    {
        let c = s.get_char(i);
        proof {
            assert(d[i - from] == c);
        }
        if c < '0' || c > '9' {
            proof {
                assert(!('0' <= d[i - from] <= '9'));
            }
            return None;
        }
        let digit = (c as u32 - 48) as u64;
        let ghost p = d.subrange(0, i - from + 1);
        proof {
            assert(p.drop_last() =~= d.subrange(0, i - from));
            assert(p.last() == c);
            assert(all_digits(p));
        }
        if digit > limit || acc > (limit - digit) / 10 {
            proof {
                assert(acc * 10 + digit > limit) by (nonlinear_arith)
                    requires
                        digit > limit || acc > (limit - digit) / 10,
                        acc >= 0,
                ;
                if all_digits(d) {
                    lemma_digits_value_grows(d, i - from + 1, d.len() as int);
                    assert(d.subrange(0, d.len() as int) =~= d);
                }
            }
            return None;
        }
        proof {
            assert(acc * 10 + digit <= limit) by (nonlinear_arith)
                requires
                    digit <= limit,
                    acc <= (limit - digit) / 10,
            ;
        }
        acc = acc * 10 + digit;
        i = i + 1;
    }
    proof {
        assert(d.subrange(0, d.len() as int) =~= d);
    }
    Some(acc)
}

/// `u32::from_str`: an optional `+` followed by the ASCII digits of a value that fits in a
/// `u32`.
fn parse_u32(s: &str) -> (r: Option<u32>)
    ensures
        r == decimal_value(s@),
{
    let n = s.unicode_len();
    let from: usize = if n > 0 && s.get_char(0) == '+' {
        1
    } else {
        0
    };
    let ghost d = s@.subrange(from as int, s@.len() as int);
    proof {
        if from == 1 {
            assert(d =~= s@.drop_first());
        } else {
            assert(d =~= s@);
        }
    }
    let r = parse_digits(s, from, 4294967295);
    proof {
        assert(from == 1 <==> (s@.len() > 0 && s@[0] == '+'));
        let digits = if s@.len() > 0 && s@[0] == '+' {
            s@.drop_first()
        } else {
            s@
        };
        assert(digits == d);
        assert(decimal_value(s@) == if d.len() > 0 && all_digits(d) && digits_value(d) <= u32::MAX {
            Some(digits_value(d) as u32)
        } else {
            None::<u32>
        });
    }
    match r {
        Some(v) => Some(v as u32),
        None => None,
    }
}

/// The name `cuda:{index}`.
fn cuda_device_name(index: u32) -> (r: String)
    ensures
        r@ == seq!['c', 'u', 'd', 'a', ':'] + decimal(index as nat),
{
    let digits = decimal_string(index);
    proof {
        reveal_strlit("cuda:");
    }
    String::from_str("cuda:").concat(digits.as_str())
}

/// The string representation of a device.
pub open spec fn device_name(d: Device) -> Seq<char> {
    match d {
        Device::Cpu => seq!['c', 'p', 'u'],
        Device::Cuda(i) => seq!['c', 'u', 'd', 'a', ':'] + decimal(i as nat),
        Device::Mps => seq!['m', 'p', 's'],
        Device::Auto => seq!['a', 'u', 't', 'o'],
    }
}

/// The device named by an already lowercased string: `cpu`, `mps`, `auto`, `cuda`
/// (device 0) or `cuda:N`.
pub open spec fn device_from_name(l: Seq<char>) -> Option<Device> {
    if l == seq!['c', 'p', 'u'] {
        Some(Device::Cpu)
    } else if l == seq!['m', 'p', 's'] {
        Some(Device::Mps)
    } else if l == seq!['a', 'u', 't', 'o'] {
        Some(Device::Auto)
    } else if l == seq!['c', 'u', 'd', 'a'] {
        Some(Device::Cuda(0))
    } else if l.len() >= 5 && l.subrange(0, 5) == seq!['c', 'u', 'd', 'a', ':'] {
        match decimal_value(l.subrange(5, l.len() as int)) {
            Some(i) => Some(Device::Cuda(i)),
            None => None,
        }
    } else {
        None
    }
}

/// The decimal representation of `n` is a non-empty string of ASCII digits that writes `n`.
proof fn lemma_decimal_digits(n: nat)
    ensures
        decimal(n).len() > 0,
        forall|i: int| 0 <= i < decimal(n).len() ==> '0' <= #[trigger] decimal(n)[i] <= '9',
        digits_value(decimal(n)) == n,
    decreases n,
{
    assert(digit_char((n % 10) as int) as int == 48 + n % 10);
    if n < 10 {
        assert(seq![digit_char(n as int)].drop_last() =~= Seq::<char>::empty());
        assert(n % 10 == n);
        assert(digits_value(decimal(n)) == digits_value(Seq::<char>::empty()) * 10 + (digit_char(n as int) as int - 48));
    } else {
        lemma_decimal_digits(n / 10);
        let s = decimal(n);
        assert(s == decimal(n / 10).push(digit_char((n % 10) as int)));
        assert(s.drop_last() =~= decimal(n / 10));
        assert(s.last() == digit_char((n % 10) as int));
        assert((n / 10) * 10 + n % 10 == n) by (nonlinear_arith);
        assert(digits_value(s) == digits_value(s.drop_last()) * 10 + (s.last() as int - 48));
    }
}

/// Displaying a device and reading the display back gives the same device: the name that
/// `as_str` produces is already lowercase, and `from_lowercase` maps it back to the device.
pub proof fn lemma_device_name_round_trip(d: Device)
    ensures
        device_from_name(device_name(d)) == Some(d),
{
    match d {
        Device::Cuda(i) => {
            let name = device_name(d);
            lemma_decimal_digits(i as nat);
            let digits = decimal(i as nat);
            assert(name.subrange(0, 5) =~= seq!['c', 'u', 'd', 'a', ':']);
            assert(name.subrange(5, name.len() as int) =~= digits);
            assert(name.len() >= 6);
            assert(name != seq!['c', 'p', 'u']);
            assert(name != seq!['m', 'p', 's']);
            assert(name != seq!['a', 'u', 't', 'o']);
            assert(name != seq!['c', 'u', 'd', 'a']);
            assert(digits[0] != '+');
        },
        Device::Cpu => {
            assert(seq!['c', 'p', 'u'] =~= seq!['c', 'p', 'u']);
        },
        Device::Mps => {
            assert(seq!['m', 'p', 's'] != seq!['c', 'p', 'u']) by {
                assert(seq!['m', 'p', 's'][0] != seq!['c', 'p', 'u'][0]);
            }
        },
        Device::Auto => {
            assert(seq!['a', 'u', 't', 'o'] != seq!['c', 'p', 'u']) by {
                assert(seq!['a', 'u', 't', 'o'].len() != seq!['c', 'p', 'u'].len());
            }
            assert(seq!['a', 'u', 't', 'o'] != seq!['m', 'p', 's']) by {
                assert(seq!['a', 'u', 't', 'o'].len() != seq!['m', 'p', 's'].len());
            }
        },
    }
}

/// The decimal digit `d` as a one-character string.
fn digit_str(d: u32) -> (s: &'static str)
    requires
        d < 10,
    ensures
        s@ == seq![digit_char(d as int)],
{
    match d {
        0 => {
            proof {
                reveal_strlit("0");
            }
            "0"
        },
        1 => {
            proof {
                reveal_strlit("1");
            }
            "1"
        },
        2 => {
            proof {
                reveal_strlit("2");
            }
            "2"
        },
        3 => {
            proof {
                reveal_strlit("3");
            }
            "3"
        },
        4 => {
            proof {
                reveal_strlit("4");
            }
            "4"
        },
        5 => {
            proof {
                reveal_strlit("5");
            }
            "5"
        },
        6 => {
            proof {
                reveal_strlit("6");
            }
            "6"
        },
        7 => {
            proof {
                reveal_strlit("7");
            }
            "7"
        },
        8 => {
            proof {
                reveal_strlit("8");
            }
            "8"
        },
        _ => {
            proof {
                reveal_strlit("9");
            }
            "9"
        },
    }
}

/// `n` written in decimal, most significant digit first, without leading zeros.
pub(crate) fn decimal_string(n: u32) -> (s: String)
    ensures
        s@ == decimal(n as nat),
    decreases n,
{
    if n < 10 {
        String::from_str(digit_str(n))
    } else {
        let mut s = decimal_string(n / 10);
        s.append(digit_str(n % 10));
        s
    }
}

/// Whether the string `s` is exactly the characters `lit`.
pub(crate) fn str_is(s: &str, lit: &str) -> (b: bool)
    ensures
        b == (s@ == lit@),
{
    let n = s.unicode_len();
    let m = lit.unicode_len();
    if n != m {
        return false;
    }
    let mut i: usize = 0;
    while i < n
        invariant
            n == s@.len(),
            m == lit@.len(),
            n == m,
            i <= n,
            forall|j: int| 0 <= j < i ==> s@[j] == lit@[j],
        decreases n - i,
    {
        if s.get_char(i) != lit.get_char(i) {
            return false;
        }
        i = i + 1;
    }
    assert(s@ =~= lit@);
    true
}

impl Device {
    /// Create a CUDA device with index 0.
    pub fn cuda() -> (d: Self)
        ensures
            d == Device::Cuda(0),
    {
        Device::Cuda(0)
    }

    /// Create a CUDA device with specific index.
    pub fn cuda_with_index(index: u32) -> (d: Self)
        ensures
            d == Device::Cuda(index),
    {
        Device::Cuda(index)
    }

    /// Check if this is a GPU device.
    pub fn is_gpu(&self) -> (b: bool)
        ensures
            b == (*self is Cuda || *self is Mps),
    {
        match self {
            Device::Cuda(_) | Device::Mps => true,
            _ => false,
        }
    }

    /// Check if this is a CPU device.
    pub fn is_cpu(&self) -> (b: bool)
        ensures
            b == (*self is Cpu),
    {
        match self {
            Device::Cpu => true,
            _ => false,
        }
    }

    /// Get device string representation (e.g., "cuda:0", "cpu", "mps").
    pub fn as_str(&self) -> (s: Cow<'static, str>)
        ensures
            s@ == device_name(*self),
    {
        match self {
            Device::Cpu => {
                let s = "cpu";
                proof {
                    reveal_strlit("cpu");
                }
                assert(s@ =~= seq!['c', 'p', 'u']);
                Cow::Borrowed(s)
            },
            Device::Cuda(idx) => {
                let name = cuda_device_name(*idx);
                Cow::Owned(name)
            },
            Device::Mps => {
                let s = "mps";
                proof {
                    reveal_strlit("mps");
                }
                assert(s@ =~= seq!['m', 'p', 's']);
                Cow::Borrowed(s)
            },
            Device::Auto => {
                let s = "auto";
                proof {
                    reveal_strlit("auto");
                }
                assert(s@ =~= seq!['a', 'u', 't', 'o']);
                Cow::Borrowed(s)
            },
        }
    }

    /// Resolve Auto to an actual device: with CUDA support ([`CUDA`]) Auto tries CUDA device 0
    /// first, without it Auto is the CPU; every other device resolves to itself.
    pub fn resolve(&self) -> (d: Self)
        ensures
            d == (if *self is Auto {
                if CUDA {
                    Device::Cuda(0)
                } else {
                    Device::Cpu
                }
            } else {
                *self
            }),
    {
        match self {
            Device::Auto => {
                if CUDA {
                    Device::Cuda(0)
                } else {
                    Device::Cpu
                }
            },
            other => *other,
        }
    }

    /// Parse an already lowercased device name.
    pub fn from_lowercase(l: &str) -> (r: Result<Device, Error>)
        ensures
            match device_from_name(l@) {
                Some(d) => r == Ok::<Device, Error>(d),
                None => r matches Err(Error::Config(m)) && m@ == if l@.len() >= 5 && l@.subrange(
                    0,
                    5,
                ) == seq!['c', 'u', 'd', 'a', ':'] {
                    "invalid CUDA device index: "@ + l@
                } else {
                    "unknown device: "@ + l@
                },
            },
    {
        if str_is(l, "cpu") {
            proof {
                reveal_strlit("cpu");
            }
            assert(l@ =~= seq!['c', 'p', 'u']);
            return Ok(Device::Cpu);
        }
        proof {
            reveal_strlit("cpu");
        }
        assert(l@ != seq!['c', 'p', 'u']) by {
            if l@ == seq!['c', 'p', 'u'] {
                assert(l@ =~= "cpu"@);
            }
        }
        if str_is(l, "mps") {
            proof {
                reveal_strlit("mps");
            }
            assert(l@ =~= seq!['m', 'p', 's']);
            return Ok(Device::Mps);
        }
        proof {
            reveal_strlit("mps");
        }
        assert(l@ != seq!['m', 'p', 's']) by {
            if l@ == seq!['m', 'p', 's'] {
                assert(l@ =~= "mps"@);
            }
        }
        if str_is(l, "auto") {
            proof {
                reveal_strlit("auto");
            }
            assert(l@ =~= seq!['a', 'u', 't', 'o']);
            return Ok(Device::Auto);
        }
        proof {
            reveal_strlit("auto");
        }
        assert(l@ != seq!['a', 'u', 't', 'o']) by {
            if l@ == seq!['a', 'u', 't', 'o'] {
                assert(l@ =~= "auto"@);
            }
        }
        if str_is(l, "cuda") {
            proof {
                reveal_strlit("cuda");
            }
            assert(l@ =~= seq!['c', 'u', 'd', 'a']);
            return Ok(Device::Cuda(0));
        }
        proof {
            reveal_strlit("cuda");
        }
        assert(l@ != seq!['c', 'u', 'd', 'a']) by {
            if l@ == seq!['c', 'u', 'd', 'a'] {
                assert(l@ =~= "cuda"@);
            }
        }
        let n = l.unicode_len();
        if n >= 5 {
            let head = l.substring_char(0, 5);
            if str_is(head, "cuda:") {
                proof {
                    reveal_strlit("cuda:");
                }
                assert(l@.subrange(0, 5) =~= seq!['c', 'u', 'd', 'a', ':']);
                let rest = l.substring_char(5, n);
                match parse_u32(rest) {
                    Some(i) => {
                        return Ok(Device::Cuda(i));
                    },
                    None => {
                        let msg = String::from_str("invalid CUDA device index: ").concat(l);
                        return Err(Error::config(msg));
                    },
                }
            }
            proof {
                reveal_strlit("cuda:");
            }
            assert(l@.subrange(0, 5) != seq!['c', 'u', 'd', 'a', ':']) by {
                if l@.subrange(0, 5) == seq!['c', 'u', 'd', 'a', ':'] {
                    assert(head@ =~= "cuda:"@);
                }
            }
        }
        let msg = String::from_str("unknown device: ").concat(l);
        Err(Error::config(msg))
    }

    /// Parse a device name, case-insensitively: `cpu`, `mps`, `auto`, `cuda` (device 0) or
    /// `cuda:N`. Anything else is a configuration error.
    pub fn parse(s: &str) -> (r: Result<Device, Error>)
        ensures
            parse_outcome(lowercase_of(s@), r),
    {
        let l = lowercase(s);
        Self::from_lowercase(l.as_str())
    }
}

/// What parsing the lowercased device name `l` gives: the device it names, or else a
/// configuration error saying `invalid CUDA device index: l` when `l` starts with `cuda:` and
/// `unknown device: l` otherwise.
pub open spec fn parse_outcome(l: Seq<char>, r: Result<Device, Error>) -> bool {
    match device_from_name(l) {
        Some(d) => r == Ok::<Device, Error>(d),
        None => r matches Err(Error::Config(m)) && m@ == if l.len() >= 5 && l.subrange(0, 5)
            == seq!['c', 'u', 'd', 'a', ':'] {
            "invalid CUDA device index: "@ + l
        } else {
            "unknown device: "@ + l
        },
    }
}

impl std::str::FromStr for Device {
    type Err = Error;

    fn from_str(s: &str) -> (r: Result<Self, Self::Err>)
        ensures
            parse_outcome(lowercase_of(s@), r),
    {
        Device::parse(s)
    }
}

/// Remaps category IDs in detections.
#[derive(Debug, Clone)]
pub struct CategoryRemapper {
    id_remap: HashMap<u32, u32>,
}

impl CategoryRemapper {
    /// The id map, from old class id to new class id.
    pub closed spec fn id_map(&self) -> Map<u32, u32> {
        self.id_remap@
    }

    /// Create an empty remapper (no-op).
    pub fn new() -> (r: Self)
        ensures
            r.id_map() == Map::<u32, u32>::empty(),
    {
        CategoryRemapper { id_remap: HashMap::new() }
    }

    /// Create from a direct ID mapping.
    pub fn from_id_map(id_remap: HashMap<u32, u32>) -> (r: Self)
        ensures
            r.id_map() == id_remap@,
    {
        CategoryRemapper { id_remap }
    }

    /// The class id a detection of class `class_id` gets: its mapped id, or itself when it is
    /// not in the map.
    pub fn remap_id(&self, class_id: u32) -> (r: u32)
        ensures
            r == if self.id_map().contains_key(class_id) {
                self.id_map()[class_id]
            } else {
                class_id
            },
    {
        match self.id_remap.get(&class_id) {
            Some(v) => *v,
            None => class_id,
        }
    }

    /// Check if remapper is a no-op.
    pub fn is_empty(&self) -> (b: bool)
        ensures
            b == (self.id_map().len() == 0),
    {
        self.id_remap.is_empty()
    }
}

impl Default for Device {
    /// The CPU is the default device.
    fn default() -> (d: Self)
        ensures
            d == Device::Cpu,
    {
        Device::Cpu
    }
}

impl Default for CategoryRemapper {
    /// The remapper that changes no id.
    fn default() -> (r: Self)
        ensures
            r.id_map() == Map::<u32, u32>::empty(),
    {
        Self::new()
    }
}

} // verus!
