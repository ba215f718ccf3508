//! The password space and the chain length shared by every component.

use crate::bytes::copy_bytes;
use vstd::prelude::*;

verus! {

/// Number of digest bytes that fit the 64-bit accumulator of the reduction.
/// A plaintext takes one digest byte per symbol, so this is also the longest
/// plaintext that can be configured, whatever the alphabet: a plaintext of
/// up to eight symbols is supported, a longer one is refused.
pub const ACCUMULATOR_BYTES: usize = 8;

/// Mathematical model of a [`Config`].
pub struct ConfigView {
    /// The symbols a plaintext is drawn from, in digit order.
    pub alphabet: Seq<u8>,
    /// Number of symbols in every plaintext.
    pub plaintext_len: nat,
    /// Number of hash steps in every chain.
    pub chain_len: nat,
}

/// A symbol must be a visible ASCII character: neither blank nor a control
/// character, so that stored records need no escaping.
pub open spec fn supported_symbol(b: u8) -> bool {
    0x21 <= b <= 0x7e
}

impl ConfigView {
    /// The combinations of alphabet, plaintext length and chain length that
    /// the reduction and the chain walk can work with.
    pub open spec fn valid(self) -> bool {
        &&& self.alphabet.len() > 0
        &&& forall|i: int|
            0 <= i < self.alphabet.len() ==> supported_symbol(#[trigger] self.alphabet[i])
        &&& self.alphabet.no_duplicates()
        &&& self.plaintext_len <= ACCUMULATOR_BYTES
        &&& self.chain_len >= 1
    }

    /// Membership in the password space: the right length, and every symbol
    /// taken from the alphabet.
    pub open spec fn is_plaintext(self, p: Seq<u8>) -> bool {
        &&& p.len() == self.plaintext_len
        &&& forall|i: int| 0 <= i < p.len() ==> self.alphabet.contains(#[trigger] p[i])
    }
}

/// Why a combination of parameters was refused.
#[derive(Debug, Clone, Copy, PartialEq, Eq, Structural)]
pub enum ConfigurationError {
    /// The alphabet has no symbol.
    EmptyAlphabet,
    /// A symbol is not a visible ASCII character.
    UnsupportedSymbol,
    /// A symbol occurs twice in the alphabet.
    DuplicateSymbol,
    /// The plaintext is longer than [`ACCUMULATOR_BYTES`].
    PlaintextTooLong,
    /// A chain must take at least one hash step.
    ZeroChainLength,
}

/// The first reason, in the order of [`ConfigurationError`]'s variants, for
/// which the parameters are refused; `None` when they are accepted.
pub open spec fn config_error(alphabet: Seq<u8>, plaintext_len: nat, chain_len: nat) -> Option<
    ConfigurationError,
> {
    if alphabet.len() == 0 {
        Some(ConfigurationError::EmptyAlphabet)
    } else if exists|i: int| 0 <= i < alphabet.len() && !supported_symbol(#[trigger] alphabet[i]) {
        Some(ConfigurationError::UnsupportedSymbol)
    } else if !alphabet.no_duplicates() {
        Some(ConfigurationError::DuplicateSymbol)
    } else if plaintext_len > ACCUMULATOR_BYTES {
        Some(ConfigurationError::PlaintextTooLong)
    } else if chain_len == 0 {
        Some(ConfigurationError::ZeroChainLength)
    } else {
        None
    }
}

/// Plaintext length of the standard configuration.
pub const PWD_LEN: usize = 4;

/// Chain length of the standard configuration.
pub const CHAIN_LEN: usize = 1024;

/// The lower-case letters `a` to `z`.
pub open spec fn lowercase_letters() -> Seq<u8> {
    Seq::new(26, |i: int| (0x61 + i) as u8)
}

/// A validated password space together with the chain length.
#[derive(Debug)]
pub struct Config {
    alphabet: Vec<u8>,
    plaintext_len: usize,
    chain_len: usize,
}

impl View for Config {
    type V = ConfigView;

    closed spec fn view(&self) -> ConfigView {
        ConfigView {
            alphabet: self.alphabet@,
            plaintext_len: self.plaintext_len as nat,
            chain_len: self.chain_len as nat,
        }
    }
}

impl Clone for Config {
    fn clone(&self) -> (c: Self)
        ensures
            c@ == self@,
            c.wf(),
    {
        proof {
            use_type_invariant(self);
        }
        Config {
            alphabet: copy_bytes(self.alphabet.as_slice()),
            plaintext_len: self.plaintext_len,
            chain_len: self.chain_len,
        }
    }
}

impl Config {
    /// Every `Config` that exists at run time is valid.
    #[verifier::type_invariant]
    pub open spec fn wf(&self) -> bool {
        self@.valid()
    }

    /// Checks the parameters and, if they are feasible, fixes them.
    pub fn new(alphabet: Vec<u8>, plaintext_len: usize, chain_len: usize) -> (r: Result<
        Config,
        ConfigurationError,
    >)
        ensures
            match r {
                Ok(c) => config_error(alphabet@, plaintext_len as nat, chain_len as nat) is None
                    && c@ == (ConfigView {
                    alphabet: alphabet@,
                    plaintext_len: plaintext_len as nat,
                    chain_len: chain_len as nat,
                }) && c.wf(),
                Err(e) => config_error(alphabet@, plaintext_len as nat, chain_len as nat) == Some(
                    e,
                ),
            },
    {
        let n: usize = alphabet.len();
        if n == 0 {
            return Err(ConfigurationError::EmptyAlphabet);
        }
        let mut i: usize = 0;
        while i < n
            invariant
                n == alphabet@.len(),
                i <= n,
                forall|k: int| 0 <= k < i ==> supported_symbol(#[trigger] alphabet@[k]),
            decreases n - i,
        {
            if alphabet[i] < 0x21 || alphabet[i] > 0x7e {
                return Err(ConfigurationError::UnsupportedSymbol);
            }
            i += 1;
        }
        let mut i: usize = 0;
        while i < n
            invariant
                n == alphabet@.len(),
                i <= n,
                forall|k: int| 0 <= k < n ==> supported_symbol(#[trigger] alphabet@[k]),
                forall|a: int, b: int| 0 <= a < b < i ==> alphabet@[a] != alphabet@[b],
            decreases n - i,
        {
            let mut j: usize = 0;
            while j < i
                invariant
                    n == alphabet@.len(),
                    i < n,
                    j <= i,
                    forall|k: int| 0 <= k < n ==> supported_symbol(#[trigger] alphabet@[k]),
                    forall|a: int| 0 <= a < j ==> alphabet@[a] != alphabet@[i as int],
                decreases i - j,
            {
                if alphabet[j] == alphabet[i] {
                    return Err(ConfigurationError::DuplicateSymbol);
                }
                j += 1;
            }
            i += 1;
        }
        if plaintext_len > ACCUMULATOR_BYTES {
            return Err(ConfigurationError::PlaintextTooLong);
        }
        if chain_len == 0 {
            return Err(ConfigurationError::ZeroChainLength);
        }
        Ok(Config { alphabet, plaintext_len, chain_len })
    }

    /// The standard configuration: plaintexts of [`PWD_LEN`] lower-case
    /// letters, chains of [`CHAIN_LEN`] steps.
    pub fn standard() -> (c: Config)
        ensures
            c@ == (ConfigView {
                alphabet: lowercase_letters(),
                plaintext_len: PWD_LEN as nat,
                chain_len: CHAIN_LEN as nat,
            }),
            c.wf(),
    {
        let mut alphabet: Vec<u8> = Vec::new();
        let mut letter: u8 = 0x61;
        while letter <= 0x7a
            invariant
                0x61 <= letter <= 0x7b,
                alphabet@.len() == letter - 0x61,
                forall|k: int| 0 <= k < alphabet@.len() ==> alphabet@[k] == 0x61 + k,
            decreases 0x7b - letter,
        {
            alphabet.push(letter);
            letter += 1;
        }
        assert(alphabet@ =~= lowercase_letters());
        Config { alphabet, plaintext_len: PWD_LEN, chain_len: CHAIN_LEN }
    }

    /// The symbols of the password space, in digit order.
    pub fn alphabet(&self) -> (a: &[u8])
        ensures
            a@ == self@.alphabet,
    {
        self.alphabet.as_slice()
    }

    /// Number of symbols in every plaintext.
    pub fn plaintext_len(&self) -> (n: usize)
        ensures
            n == self@.plaintext_len,
    {
        self.plaintext_len
    }

    /// Number of hash steps in every chain.
    pub fn chain_len(&self) -> (n: usize)
        ensures
            n == self@.chain_len,
    {
        self.chain_len
    }

    /// The symbol that stands for a digit.
    pub fn symbol(&self, digit: usize) -> (b: u8)
        requires
            digit < self@.alphabet.len(),
        ensures
            b == self@.alphabet[digit as int],
    {
        self.alphabet[digit]
    }

    /// Tells whether `b` is a symbol of the alphabet.
    pub fn has_symbol(&self, b: u8) -> (ok: bool)
        ensures
            ok == self@.alphabet.contains(b),
    {
        let mut i: usize = 0;
        while i < self.alphabet.len()
            invariant
                i <= self.alphabet@.len(),
                forall|k: int| 0 <= k < i ==> self.alphabet@[k] != b,
            decreases self.alphabet@.len() - i,
        {
            if self.alphabet[i] == b {
                return true;
            }
            i += 1;
        }
        false
    }

    /// Tells whether `p` is a plaintext of the configured space.
    pub fn is_plaintext(&self, p: &[u8]) -> (ok: bool)
        ensures
            ok == self@.is_plaintext(p@),
    {
        if p.len() != self.plaintext_len {
            return false;
        }
        let mut i: usize = 0;
        while i < p.len()
            invariant
                i <= p@.len(),
                p@.len() == self@.plaintext_len,
                forall|k: int| 0 <= k < i ==> self@.alphabet.contains(#[trigger] p@[k]),
            decreases p@.len() - i,
        {
            if !self.has_symbol(p[i]) {
                return false;
            }
            i += 1;
        }
        true
    }
}

} // verus!
