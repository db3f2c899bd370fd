//! How much memory each packet receiver gets.

use vstd::prelude::*;

use crate::bits::power_of_two;
use crate::text::same_text;

verus! {

/// Memory sizes by T-shirt convention. Each is twice the one before it.
#[derive(Debug, Clone, Copy, PartialEq, Eq, Structural)]
pub enum PktRecvMemSizing {
    /// 128 MiB
    XSmall,
    /// 256 MiB
    Small,
    /// 512 MiB
    Medium,
    /// 1 GiB
    Large,
    /// 2 GiB
    XLarge,
    /// 4 GiB
    XXLarge,
    /// 8 GiB
    XXXLarge,
    /// 16 GiB
    XXXXLarge,
    /// 32 GiB
    XXXXXLarge,
}

/// A text that names no memory size.
#[derive(Debug)]
pub struct ReceiverMemoryCapacityFromStrErr(pub String);

impl ReceiverMemoryCapacityFromStrErr {
    /// What is told to a user.
    pub fn message(&self) -> (m: String)
        ensures
            m@ == "Invalid ReceiverMemoryCapacity: "@ + self.0@,
    {
        let mut m: String = "Invalid ReceiverMemoryCapacity: ".to_owned();
        m.append(self.0.as_str());
        m
    }
}

/// What `str::to_lowercase` makes of a text.
pub uninterp spec fn lowercase(s: Seq<char>) -> Seq<char>;

/// The lower case of a character of ASCII; any other character itself.
pub open spec fn ascii_lowercase(c: char) -> char {
    if 'A' <= c <= 'Z' {
        (c as u32 + 32) as char
    } else {
        c
    }
}

/// `str::to_lowercase`. Trusted: the result depends on the text alone, and in a
/// text of ASCII characters exactly the letters `A` to `Z` change.
#[verifier::external_body]
fn to_lowercase(s: &str) -> (r: String)
    ensures
        r@ == lowercase(s@),
        s.is_ascii() ==> r@ == s@.map_values(|c: char| ascii_lowercase(c)),
{
    s.to_lowercase()
}

/// The memory size that a lower-case name stands for.
pub open spec fn spec_sizing_of_name(name: Seq<char>) -> Option<PktRecvMemSizing> {
    if name == "xsmall"@ || name == "xs"@ {
        Some(PktRecvMemSizing::XSmall)
    } else if name == "small"@ || name == "s"@ {
        Some(PktRecvMemSizing::Small)
    } else if name == "medium"@ || name == "m"@ {
        Some(PktRecvMemSizing::Medium)
    } else if name == "large"@ || name == "l"@ {
        Some(PktRecvMemSizing::Large)
    } else if name == "xlarge"@ || name == "xl"@ {
        Some(PktRecvMemSizing::XLarge)
    } else if name == "xxlarge"@ || name == "xxl"@ || name == "2xl"@ {
        Some(PktRecvMemSizing::XXLarge)
    } else if name == "xxxlarge"@ || name == "xxxl"@ || name == "3xl"@ {
        Some(PktRecvMemSizing::XXXLarge)
    } else if name == "xxxxlarge"@ || name == "xxxxl"@ || name == "4xl"@ {
        Some(PktRecvMemSizing::XXXXLarge)
    } else if name == "xxxxxlarge"@ || name == "xxxxxl"@ || name == "5xl"@ {
        Some(PktRecvMemSizing::XXXXXLarge)
    } else {
        None
    }
}

/// The memory size that a lower-case name stands for.
pub fn sizing_of_name(name: &str) -> (r: Option<PktRecvMemSizing>)
    ensures
        r == spec_sizing_of_name(name@),
{
    if same_text(name, "xsmall") || same_text(name, "xs") {
        Some(PktRecvMemSizing::XSmall)
    } else if same_text(name, "small") || same_text(name, "s") {
        Some(PktRecvMemSizing::Small)
    } else if same_text(name, "medium") || same_text(name, "m") {
        Some(PktRecvMemSizing::Medium)
    } else if same_text(name, "large") || same_text(name, "l") {
        Some(PktRecvMemSizing::Large)
    } else if same_text(name, "xlarge") || same_text(name, "xl") {
        Some(PktRecvMemSizing::XLarge)
    } else if same_text(name, "xxlarge") || same_text(name, "xxl") || same_text(name, "2xl") {
        Some(PktRecvMemSizing::XXLarge)
    } else if same_text(name, "xxxlarge") || same_text(name, "xxxl") || same_text(name, "3xl") {
        Some(PktRecvMemSizing::XXXLarge)
    } else if same_text(name, "xxxxlarge") || same_text(name, "xxxxl") || same_text(name, "4xl") {
        Some(PktRecvMemSizing::XXXXLarge)
    } else if same_text(name, "xxxxxlarge") || same_text(name, "xxxxxl") || same_text(
        name,
        "5xl",
    ) {
        Some(PktRecvMemSizing::XXXXXLarge)
    } else {
        None
    }
}

impl PktRecvMemSizing {
    /// How many sizes are smaller.
    pub open spec fn rank(self) -> nat {
        match self {
            PktRecvMemSizing::XSmall => 0,
            PktRecvMemSizing::Small => 1,
            PktRecvMemSizing::Medium => 2,
            PktRecvMemSizing::Large => 3,
            PktRecvMemSizing::XLarge => 4,
            PktRecvMemSizing::XXLarge => 5,
            PktRecvMemSizing::XXXLarge => 6,
            PktRecvMemSizing::XXXXLarge => 7,
            PktRecvMemSizing::XXXXXLarge => 8,
        }
    }

    /// The size in bytes.
    pub open spec fn spec_bytes(self) -> u64 {
        match self {
            PktRecvMemSizing::XSmall => 134217728,
            PktRecvMemSizing::Small => 268435456,
            PktRecvMemSizing::Medium => 536870912,
            PktRecvMemSizing::Large => 1073741824,
            PktRecvMemSizing::XLarge => 2147483648,
            PktRecvMemSizing::XXLarge => 4294967296,
            PktRecvMemSizing::XXXLarge => 8589934592,
            PktRecvMemSizing::XXXXLarge => 17179869184,
            PktRecvMemSizing::XXXXXLarge => 34359738368,
        }
    }

    /// The size in bytes.
    pub fn bytes(&self) -> (n: u64)
        ensures
            n == self.spec_bytes(),
    {
        match self {
            PktRecvMemSizing::XSmall => 134217728,
            PktRecvMemSizing::Small => 268435456,
            PktRecvMemSizing::Medium => 536870912,
            PktRecvMemSizing::Large => 1073741824,
            PktRecvMemSizing::XLarge => 2147483648,
            PktRecvMemSizing::XXLarge => 4294967296,
            PktRecvMemSizing::XXXLarge => 8589934592,
            PktRecvMemSizing::XXXXLarge => 17179869184,
            PktRecvMemSizing::XXXXXLarge => 34359738368,
        }
    }

    /// Reads a memory size, in any case; gives the text back if it names none.
    pub fn from_str(s: &str) -> (r: Result<Self, String>)
        ensures
            match spec_sizing_of_name(lowercase(s@)) {
                Some(sizing) => r == Ok::<Self, String>(sizing),
                None => r matches Err(e) && e@ == s@,
            },
            s.is_ascii() ==> lowercase(s@) == s@.map_values(|c: char| ascii_lowercase(c)),
    {
        let lower: String = to_lowercase(s);
        match sizing_of_name(lower.as_str()) {
            Some(sizing) => Ok(sizing),
            None => Err(s.to_owned()),
        }
    }
}

impl Default for PktRecvMemSizing {
    fn default() -> (r: Self)
        ensures
            r == PktRecvMemSizing::XSmall,
    {
        PktRecvMemSizing::XSmall
    }
}

impl std::str::FromStr for PktRecvMemSizing {
    type Err = String;

    /// As the method of the same name.
    fn from_str(s: &str) -> (r: Result<Self, String>)
        ensures
            match spec_sizing_of_name(lowercase(s@)) {
                Some(sizing) => r == Ok::<Self, String>(sizing),
                None => r matches Err(e) && e@ == s@,
            },
            s.is_ascii() ==> lowercase(s@) == s@.map_values(|c: char| ascii_lowercase(c)),
    {
        PktRecvMemSizing::from_str(s)
    }
}

/// The memory of a packet receiver.
#[derive(Debug, Clone, Copy, PartialEq, Eq, Structural)]
pub struct PktRecvTileMemConfig {
    pub frame_size: usize,
    pub memory_size: PktRecvMemSizing,
    pub hugepage: bool,
}

impl Default for PktRecvTileMemConfig {
    fn default() -> (r: Self)
        ensures
            r == (PktRecvTileMemConfig {
                frame_size: 2048,
                memory_size: PktRecvMemSizing::XSmall,
                hugepage: false,
            }),
    {
        PktRecvTileMemConfig {
            frame_size: 2048,
            memory_size: PktRecvMemSizing::default(),
            hugepage: false,
        }
    }
}

/// Each memory size is twice the next smaller one, starting at 128 MiB, and a
/// power of two.
pub proof fn law_sizes_double(a: PktRecvMemSizing, b: PktRecvMemSizing)
    requires
        b.rank() == a.rank() + 1,
    ensures
        b.spec_bytes() == 2 * a.spec_bytes(),
        PktRecvMemSizing::XSmall.spec_bytes() == 128 * 1024 * 1024,
        power_of_two(a.spec_bytes() as int),
        power_of_two(b.spec_bytes() as int),
{
    lemma_size_is_power_of_two(a);
    lemma_size_is_power_of_two(b);
}

pub(crate) proof fn lemma_size_is_power_of_two(a: PktRecvMemSizing)
    ensures
        power_of_two(a.spec_bytes() as int),
{
    vstd::arithmetic::power2::lemma2_to64();
    vstd::arithmetic::power2::lemma2_to64_rest();
    let e = (27 + a.rank()) as nat;
    assert(a.spec_bytes() == vstd::arithmetic::power2::pow2(e));
}

} // verus!
