use ink_prelude::vec::Vec;
use vstd::prelude::*;

verus! {

/// Where a draw gets its random values from.
///
/// A source is stateful: each call hands out one fresh value, or nothing when
/// it cannot. `drawn` and `salts` are the ghost record of everything handed
/// out so far, so that a caller's contract can name the values it consumed
/// and the salts it asked with.
pub trait RandomSource {
    /// Every value handed out so far, oldest first.
    spec fn drawn(&self) -> Seq<u32>;

    /// The salt of each call that handed out a value, oldest first.
    spec fn salts(&self) -> Seq<u32>;

    /// Hands out the next value and appends it, with the salt, to the
    /// record.
    fn next(&mut self, salt: u32) -> (r: Option<u32>)
        ensures
            r matches Some(v) ==> {
                &&& final(self).drawn() == old(self).drawn().push(v)
                &&& final(self).salts() == old(self).salts().push(salt)
            },
            r is None ==> {
                &&& final(self).drawn() == old(self).drawn()
                &&& final(self).salts() == old(self).salts()
            },
    ;
}

/// The error type of `ink_env`, carried through unopened.
#[verifier::external_type_specification]
#[verifier::external_body]
pub struct ExEnvError(ink_env::Error);

/// The error type of `parity_scale_codec`, carried through unopened.
#[verifier::external_type_specification]
#[verifier::external_body]
pub struct ExCodecError(parity_scale_codec::Error);

/// The four bytes of `value`, least significant first.
pub open spec fn le_bytes(value: u32) -> Seq<u8> {
    seq![
        (value % 256) as u8,
        ((value / 256) % 256) as u8,
        ((value / 65536) % 256) as u8,
        (value / 16777216) as u8,
    ]
}

/// The number that the first four bytes spell, least significant first.
pub open spec fn le_value(bytes: Seq<u8>) -> nat {
    (bytes[0] + 256 * bytes[1] + 65536 * bytes[2] + 16777216 * bytes[3]) as nat
}

/// What goes into the seed of the next value: the clock and the block number
/// combined by exclusive or, then or-ed with the previous value plus the salt.
pub open spec fn mix(time: u64, block: u32, previous: u32, salt: u32) -> u32 {
    (((time % 0x1_0000_0000) as u32) ^ block) | ((previous + salt) as u32)
}

/// `ink_env::block_timestamp` for the default environment: the timestamp of
/// the current block. Nothing is claimed of the value.
#[verifier::external_body]
fn block_timestamp() -> u64 {
    ink_env::block_timestamp::<ink_env::DefaultEnvironment>()
}

/// `ink_env::block_number` for the default environment: the number of the
/// current block. Nothing is claimed of the value.
#[verifier::external_body]
fn block_number() -> u32 {
    ink_env::block_number::<ink_env::DefaultEnvironment>()
}

/// `ink_env::random` for the default environment: the random hash that the
/// chain derives for `subject`, as its 32 bytes. Nothing is claimed of the
/// bytes; the block number that comes with the hash is dropped.
#[verifier::external_body]
fn random_hash(subject: &Vec<u8>) -> Result<[u8; 32], ink_env::Error> {
    match ink_env::random::<ink_env::DefaultEnvironment>(subject.as_slice()) {
        Ok((hash, _)) => {
            let mut bytes = [0u8; 32];
            bytes.copy_from_slice(hash.as_ref());
            Ok(bytes)
        },
        Err(e) => Err(e),
    }
}

/// `parity_scale_codec::Encode::encode` on a `u32`: the codec writes a `u32`
/// as its four bytes, least significant first.
#[verifier::external_body]
fn encode_u32(value: u32) -> (bytes: Vec<u8>)
    ensures
        bytes@ == le_bytes(value),
{
    parity_scale_codec::Encode::encode(&value)
}

/// `parity_scale_codec::Decode::decode` for a `u32` from a byte slice: the
/// codec reads the first four bytes, least significant first, and fails when
/// there are fewer than four.
#[verifier::external_body]
fn decode_u32(bytes: &[u8]) -> (r: Result<u32, parity_scale_codec::Error>)
    ensures
        bytes@.len() >= 4 ==> r is Ok && r->Ok_0 == le_value(bytes@),
        bytes@.len() < 4 ==> r is Err,
{
    <u32 as parity_scale_codec::Decode>::decode(&mut &bytes[..])
}

/// A random source on the chain: each value is read off the hash that the
/// environment derives from the clock, the block, the last value and the salt.
pub struct RandomNumber {
    random_number: u32,
    history: Ghost<Seq<u32>>,
    asked: Ghost<Seq<u32>>,
    seeds: Ghost<Seq<Seq<u8>>>,
}

impl RandomNumber {
    /// A source that has not handed out anything; its last value reads zero.
    pub fn new() -> (source: Self)
        ensures
            source.last() == 0,
            source.drawn() == Seq::<u32>::empty(),
            source.salts() == Seq::<u32>::empty() && source.seeds() == Seq::<Seq<u8>>::empty(),
    {
        RandomNumber::resume(0)
    }

    /// A source that goes on from a value that was handed out earlier.
    pub fn resume(random_number: u32) -> (source: Self)
        ensures
            source.last() == random_number,
            source.drawn() == Seq::<u32>::empty(),
            source.salts() == Seq::<u32>::empty() && source.seeds() == Seq::<Seq<u8>>::empty(),
    {
        let (asked, seeds) = (Ghost(Seq::empty()), Ghost(Seq::empty()));
        RandomNumber { random_number, history: Ghost(Seq::empty()), asked, seeds }
    }

    /// The value handed out last, or zero before the first.
    pub closed spec fn last(&self) -> u32 {
        self.random_number
    }

    /// The seed for the next value, from the clock and the block number: the
    /// mix of both with the last value and the salt, encoded in four bytes.
    /// There is no seed when the last value plus the salt leaves 32 bits.
    pub fn seed_for(&self, salt: u32, time: u64, block: u32) -> (seed: Option<Vec<u8>>)
        ensures
            seed is None <==> self.last() + salt > u32::MAX,
            seed matches Some(bytes) ==> bytes@ == le_bytes(mix(time, block, self.last(), salt)),
    {
        match self.random_number.checked_add(salt) {
            None => None,
            Some(sum) => {
                let low = #[verifier::truncate] (time as u32);
                assert(low == (time % 0x1_0000_0000) as u32) by (bit_vector)
                    requires
                        low == #[verifier::truncate] (time as u32),
                ;
                let mix_data = (low ^ block) | sum;
                Some(encode_u32(mix_data))
            },
        }
    }

    /// Takes the next value from a hash: its first four bytes, least
    /// significant first. The value becomes the last one handed out.
    pub fn absorb(&mut self, hash: &[u8; 32]) -> (value: u32)
        ensures
            value == le_value(hash@),
            final(self).last() == value,
            final(self).drawn() == old(self).drawn().push(value),
            final(self).salts() == old(self).salts() && final(self).seeds() == old(self).seeds(),
    {
        match decode_u32(hash.as_slice()) {
            Ok(value) => {
                self.random_number = value;
                self.history = Ghost(self.history@.push(value));
                value
            },
            Err(_) => {
                // a hash has 32 bytes, more than the four that are read
                assert(false);
                self.random_number
            },
        }
    }

    /// Draws the next value from the environment, which is asked once, with
    /// the seed of `seed_for`, unless the last value plus the salt leaves 32
    /// bits. `None` leaves the last value as it was.
    pub fn random(&mut self, salt: u32) -> (r: Option<u32>)
        ensures
            r matches Some(v) ==> {
                &&& final(self).last() == v
                &&& final(self).drawn() == old(self).drawn().push(v)
                &&& final(self).salts() == old(self).salts().push(salt)
            },
            r is None ==> {
                &&& final(self).last() == old(self).last()
                &&& final(self).drawn() == old(self).drawn()
                &&& final(self).salts() == old(self).salts()
            },
            old(self).last() + salt > u32::MAX ==> {
                &&& r is None
                &&& final(self).seeds() == old(self).seeds()
            },
            old(self).last() + salt <= u32::MAX ==> exists|time: u64, block: u32|
                final(self).seeds() == old(self).seeds().push(
                    le_bytes(#[trigger] mix(time, block, old(self).last(), salt)),
                ),
    {
        let current_time = block_timestamp();
        let current_block = block_number();
        match self.seed_for(salt, current_time, current_block) {
            None => None,
            Some(mix_seed) => {
                self.seeds = Ghost(self.seeds@.push(mix_seed@));
                assert(mix_seed@ == le_bytes(
                    mix(current_time, current_block, old(self).last(), salt),
                ));
                match random_hash(&mix_seed) {
                    Ok(hash) => {
                        let value = self.absorb(&hash);
                        self.asked = Ghost(self.asked@.push(salt));
                        Some(value)
                    },
                    Err(_) => None,
                }
            },
        }
    }
}

impl RandomSource for RandomNumber {
    /// Hands out the next value as `random` does: beyond the record of
    /// values and salts, it says what becomes of the last value and which
    /// seed is handed to the environment.
    fn next(&mut self, salt: u32) -> (r: Option<u32>)
        ensures
            r matches Some(v) ==> final(self).last() == v,
            r is None ==> final(self).last() == old(self).last(),
            old(self).last() + salt > u32::MAX ==> {
                &&& r is None
                &&& final(self).seeds() == old(self).seeds()
            },
            old(self).last() + salt <= u32::MAX ==> exists|time: u64, block: u32|
                final(self).seeds() == old(self).seeds().push(
                    le_bytes(#[trigger] mix(time, block, old(self).last(), salt)),
                ),
    {
        self.random(salt)
    }

    closed spec fn drawn(&self) -> Seq<u32> {
        self.history@
    }

    closed spec fn salts(&self) -> Seq<u32> {
        self.asked@
    }
}

impl RandomNumber {
    /// Every seed that was handed to the environment for a hash, oldest
    /// first.
    pub closed spec fn seeds(&self) -> Seq<Seq<u8>> {
        self.seeds@
    }

    /// The value handed out last, or zero before the first.
    pub fn random_number(&self) -> (value: u32)
        ensures
            value == self.last(),
    {
        self.random_number
    }
}

/// A random source that hands out a recorded list of values, in order, and
/// nothing once the list is used up. The salt plays no part.
pub struct Replay {
    values: Vec<u32>,
    cursor: usize,
    asked: Ghost<Seq<u32>>,
}

impl Replay {
    /// A source that will hand out `values`, first to last.
    pub fn new(values: Vec<u32>) -> (source: Self)
        ensures
            source.pending() == values@,
            source.drawn() == Seq::<u32>::empty(),
            source.salts() == Seq::<u32>::empty(),
    {
        Replay { values, cursor: 0, asked: Ghost(Seq::empty()) }
    }

    /// The values not yet handed out.
    pub closed spec fn pending(&self) -> Seq<u32> {
        if self.cursor <= self.values@.len() {
            self.values@.skip(self.cursor as int)
        } else {
            Seq::empty()
        }
    }

    /// How many values are left.
    pub fn remaining(&self) -> (n: usize)
        ensures
            n == self.pending().len(),
    {
        if self.cursor <= self.values.len() {
            self.values.len() - self.cursor
        } else {
            0
        }
    }
}

impl RandomSource for Replay {
    closed spec fn drawn(&self) -> Seq<u32> {
        if self.cursor <= self.values@.len() {
            self.values@.take(self.cursor as int)
        } else {
            self.values@
        }
    }

    closed spec fn salts(&self) -> Seq<u32> {
        self.asked@
    }

    fn next(&mut self, salt: u32) -> (r: Option<u32>)
        ensures
            old(self).pending().len() > 0 ==> {
                &&& r == Some(old(self).pending()[0])
                &&& final(self).pending() == old(self).pending().skip(1)
            },
            old(self).pending().len() == 0 ==> {
                &&& r is None
                &&& final(self).pending() == old(self).pending()
            },
    {
        if self.cursor < self.values.len() {
            let value = self.values[self.cursor];
            assert(self.values@.take(self.cursor + 1) == self.values@.take(
                self.cursor as int,
            ).push(value));
            assert(self.values@.skip(self.cursor + 1) == self.values@.skip(
                self.cursor as int,
            ).skip(1));
            self.cursor = self.cursor + 1;
            self.asked = Ghost(self.asked@.push(salt));
            Some(value)
        } else {
            None
        }
    }
}

} // verus!
