//! Ecosystem services around the engine: hex encoding, the proof-of-inference
//! hash chain and signature count, change tracking for directory sync,
//! accelerator choice and the agent bus message.

use crate::cuneiform::Concept6D;
use std::path::PathBuf;
use vstd::prelude::*;

verus! {

/// Filesystem path, carried through unchanged.
#[verifier::external_type_specification]
#[verifier::external_body]
pub struct ExPathBuf(PathBuf);

/// Lower-case hex digit of a nibble.
pub open spec fn hex_digit(n: u8) -> char {
    if n < 10 {
        ((n + 48) as u8) as char
    } else {
        ((n + 87) as u8) as char
    }
}

/// Two lower-case hex digits per byte.
pub open spec fn hex_of(bytes: Seq<u8>) -> Seq<char>
    decreases bytes.len(),
{
    if bytes.len() == 0 {
        Seq::empty()
    } else {
        hex_of(bytes.drop_last()).push(hex_digit(bytes.last() / 16)).push(hex_digit(bytes.last() % 16))
    }
}

fn hex_digit_str(n: u8) -> (r: &'static str)
    requires
        n < 16,
    ensures
        r@ == seq![hex_digit(n)],
{
    proof {
        reveal_strlit("0");
        reveal_strlit("1");
        reveal_strlit("2");
        reveal_strlit("3");
        reveal_strlit("4");
        reveal_strlit("5");
        reveal_strlit("6");
        reveal_strlit("7");
        reveal_strlit("8");
        reveal_strlit("9");
        reveal_strlit("a");
        reveal_strlit("b");
        reveal_strlit("c");
        reveal_strlit("d");
        reveal_strlit("e");
        reveal_strlit("f");
    }
    if n == 0 {
        "0"
    } else if n == 1 {
        "1"
    } else if n == 2 {
        "2"
    } else if n == 3 {
        "3"
    } else if n == 4 {
        "4"
    } else if n == 5 {
        "5"
    } else if n == 6 {
        "6"
    } else if n == 7 {
        "7"
    } else if n == 8 {
        "8"
    } else if n == 9 {
        "9"
    } else if n == 10 {
        "a"
    } else if n == 11 {
        "b"
    } else if n == 12 {
        "c"
    } else if n == 13 {
        "d"
    } else if n == 14 {
        "e"
    } else {
        "f"
    }
}

/// Lower-case hex text of `bytes`, two digits per byte.
pub fn hex_encode(bytes: &[u8]) -> (r: String)
    ensures
        r@ == hex_of(bytes@),
{
    let mut s = String::new();
    let mut i: usize = 0;
    assert(bytes@.subrange(0, 0) =~= Seq::<u8>::empty());
    while i < bytes.len()
        invariant
            i <= bytes@.len(),
            s@ == hex_of(bytes@.subrange(0, i as int)),
        decreases bytes@.len() - i,
    {
        let b: u8 = bytes[i];
        s.append(hex_digit_str(b / 16));
        s.append(hex_digit_str(b % 16));
        assert(bytes@.subrange(0, i + 1).drop_last() =~= bytes@.subrange(0, i as int));
        i += 1;
        assert(s@ =~= hex_of(bytes@.subrange(0, i as int)));
    }
    assert(bytes@.subrange(0, bytes@.len() as int) =~= bytes@);
    s
}

/// The SHA-256 digest of `data`.
pub uninterp spec fn sha256_digest(data: Seq<u8>) -> Seq<u8>;

/// SHA-256 through `sha2::Sha256::digest`. Claimed: the result is
/// `sha256_digest(data)`, 32 bytes long.
#[verifier::external_body]
pub(crate) fn sha256(data: &[u8]) -> (r: Vec<u8>)
    ensures
        r@ == sha256_digest(data@),
        r@.len() == 32,
{
    <sha2::Sha256 as sha2::Digest>::digest(data).to_vec()
}

/// Lower-case hex SHA-256 of `data`.
pub fn sha256_hex(data: &[u8]) -> (r: String)
    ensures
        r@ == hex_of(sha256_digest(data@)),
{
    let digest = sha256(data);
    hex_encode(digest.as_slice())
}

/// `n` big-endian bytes of `value`.
pub open spec fn be_bytes(value: nat, n: nat) -> Seq<u8>
    decreases n,
{
    if n == 0 {
        Seq::empty()
    } else {
        be_bytes(value / 256, (n - 1) as nat).push((value % 256) as u8)
    }
}

fn push_be_bytes(out: &mut Vec<u8>, value: usize, n: usize)
    ensures
        final(out)@ == old(out)@ + be_bytes(value as nat, n as nat),
    decreases n,
{
    if n > 0 {
        push_be_bytes(out, value / 256, n - 1);
        out.push((value % 256) as u8);
        assert(final(out)@ =~= old(out)@ + be_bytes(value as nat, n as nat));
    } else {
        assert(final(out)@ =~= old(out)@ + be_bytes(value as nat, n as nat));
    }
}

/// Width of `usize` in bytes.
pub open spec fn usize_bytes() -> nat {
    (usize::BITS / 8) as nat
}

/// Hash chain over `tokens`: start from 32 zero bytes, then hash the previous
/// link, the token's big-endian bytes and the weight commitments.
pub open spec fn hash_chain(tokens: Seq<usize>, commitments: Seq<u8>) -> Seq<u8>
    decreases tokens.len(),
{
    if tokens.len() == 0 {
        Seq::new(32, |i: int| 0u8)
    } else {
        sha256_digest(hash_chain(tokens.drop_last(), commitments) + be_bytes(tokens.last() as nat, usize_bytes())
            + commitments)
    }
}

/// A validator and the key its signatures are checked against.
pub struct ValidatorNode {
    pub node_id: String,
    pub public_key: Vec<u8>,
}

/// Why a consensus check was refused.
#[derive(Debug, Clone, Copy, PartialEq, Eq, Structural)]
pub enum ConsensusError {
    /// No signature was offered.
    NoSignatures,
}

/// Signature `sig` matches validator key `key` on their first byte.
pub open spec fn signature_valid(sig: Seq<u8>, key: Seq<u8>) -> bool {
    sig.len() > 0 && sig[0] == key[0]
}

/// Number of validators among the first `n` whose signature at the same index
/// is valid.
pub open spec fn valid_count(validators: Seq<ValidatorNode>, signatures: Seq<Vec<u8>>, n: int) -> int
    decreases n,
{
    if n <= 0 {
        0
    } else {
        valid_count(validators, signatures, n - 1) + if n - 1 < signatures.len() && signature_valid(
            signatures[n - 1]@,
            validators[n - 1].public_key@,
        ) {
            1int
        } else {
            0int
        }
    }
}

/// The chain of commitments `H_i = SHA-256(H_{i-1} || token_i || commitments)`.
pub fn algebraic_hash_chain(tokens: &[usize], weight_commitments: &[u8]) -> (r: Vec<u8>)
    ensures
        r@ == hash_chain(tokens@, weight_commitments@),
{
    let mut current: Vec<u8> = Vec::new();
    let mut k: usize = 0;
    while k < 32
        invariant
            k <= 32,
            current@.len() == k,
            forall|j: int| 0 <= j < k ==> current@[j] == 0u8,
        decreases 32 - k,
    {
        current.push(0);
        k += 1;
    }
    assert(current@ =~= Seq::new(32, |i: int| 0u8));
    assert(tokens@.subrange(0, 0) =~= Seq::<usize>::empty());
    let width: usize = (usize::BITS / 8) as usize;
    let mut i: usize = 0;
    while i < tokens.len()
        invariant
            i <= tokens@.len(),
            width as nat == usize_bytes(),
            current@ == hash_chain(tokens@.subrange(0, i as int), weight_commitments@),
        decreases tokens@.len() - i,
    {
        let mut buf: Vec<u8> = Vec::new();
        let ghost h = current@;
        crate::cascade::push_all(&mut buf, current.as_slice());
        push_be_bytes(&mut buf, tokens[i], width);
        crate::cascade::push_all(&mut buf, weight_commitments);
        current = sha256(buf.as_slice());
        proof {
            let pre = tokens@.subrange(0, i + 1);
            assert(pre.drop_last() =~= tokens@.subrange(0, i as int));
            assert(buf@ =~= h + be_bytes(tokens@[i as int] as nat, usize_bytes()) + weight_commitments@);
        }
        i += 1;
    }
    assert(tokens@.subrange(0, tokens@.len() as int) =~= tokens@);
    current
}

/// Counts the validators whose signature at the same position is valid;
/// refused when no signature is offered.
pub fn count_valid_signatures(validators: &[ValidatorNode], signatures: &[Vec<u8>]) -> (r: Result<usize, ConsensusError>)
    requires
        forall|i: int| 0 <= i < validators@.len() && i < signatures@.len() && signatures@[i]@.len() > 0
            ==> #[trigger] validators@[i].public_key@.len() > 0,
    ensures
        signatures@.len() == 0 ==> r == Err::<usize, ConsensusError>(ConsensusError::NoSignatures),
        signatures@.len() > 0 ==> r == Ok::<usize, ConsensusError>(
            valid_count(validators@, signatures@, validators@.len() as int) as usize,
        ),
{
    if signatures.len() == 0 {
        return Err(ConsensusError::NoSignatures);
    }
    let mut count: usize = 0;
    let mut idx: usize = 0;
    while idx < validators.len()
        invariant
            idx <= validators@.len(),
            count as int == valid_count(validators@, signatures@, idx as int),
            count <= idx,
            forall|i: int| 0 <= i < validators@.len() && i < signatures@.len() && signatures@[i]@.len() > 0
                ==> #[trigger] validators@[i].public_key@.len() > 0,
        decreases validators@.len() - idx,
    {
        if idx < signatures.len() {
            let sig = &signatures[idx];
            if sig.len() > 0 {
                assert(validators@[idx as int].public_key@.len() > 0);
                if sig[0] == validators[idx].public_key[0] {
                    count += 1;
                }
            }
        }
        idx += 1;
    }
    Ok(count)
}

/// Directory ingestion state: the hash last seen for each file.
pub struct RadixSync {
    pub database_path: PathBuf,
    processed_files: Vec<(String, String)>,
}

/// Hash recorded for `name` (its last entry), if any.
pub open spec fn recorded_hash(reg: Seq<(String, String)>, name: Seq<char>) -> Option<Seq<char>>
    decreases reg.len(),
{
    if reg.len() == 0 {
        None
    } else if reg.last().0@ == name {
        Some(reg.last().1@)
    } else {
        recorded_hash(reg.drop_last(), name)
    }
}

impl RadixSync {
    /// Hash recorded for each file so far.
    pub closed spec fn registry(&self) -> Seq<(String, String)> {
        self.processed_files@
    }

    /// Where ingested content is stored.
    pub closed spec fn database(&self) -> PathBuf {
        self.database_path
    }

    /// Sync state for `database_path` with nothing ingested.
    pub fn new(database_path: PathBuf) -> (r: Self)
        ensures
            r.database() == database_path,
            forall|nm: Seq<char>| #[trigger] recorded_hash(r.registry(), nm) is None,
    {
        RadixSync { database_path, processed_files: Vec::new() }
    }

    /// Records `hash` for `filename`; true when the file is new or its hash
    /// changed, that is when it must be ingested.
    pub fn record_file(&mut self, filename: String, hash: String) -> (r: bool)
        ensures
            final(self).database() == old(self).database(),
            r == (recorded_hash(old(self).registry(), filename@) != Some(hash@)),
            forall|nm: Seq<char>| #[trigger] recorded_hash(final(self).registry(), nm) == if nm == filename@ {
                Some(hash@)
            } else {
                recorded_hash(old(self).registry(), nm)
            },
    {
        let mut j: usize = self.processed_files.len();
        assert(self.processed_files@.subrange(0, j as int) =~= self.processed_files@);
        while j > 0
            invariant
                j <= self.processed_files@.len(),
                forall|k: int| j <= k < self.processed_files@.len() ==> self.processed_files@[k].0@ != filename@,
                recorded_hash(self.processed_files@, filename@) == recorded_hash(self.processed_files@.subrange(0, j as int), filename@),
            ensures
                j <= self.processed_files@.len(),
                forall|k: int| j <= k < self.processed_files@.len() ==> self.processed_files@[k].0@ != filename@,
                recorded_hash(self.processed_files@, filename@) == recorded_hash(self.processed_files@.subrange(0, j as int), filename@),
                j > 0 ==> self.processed_files@[j - 1].0@ == filename@,
            decreases j,
        {
            assert(self.processed_files@.subrange(0, j as int).drop_last() =~= self.processed_files@.subrange(0, j - 1));
            if self.processed_files[j - 1].0 == filename {
                break;
            }
            j -= 1;
        }
        let ghost before = self.processed_files@;
        proof {
            if j > 0 {
                assert(before.subrange(0, j as int).last() == before[j - 1]);
            } else {
                assert(before.subrange(0, 0).len() == 0);
            }
        }
        if j > 0 {
            let changed = !(self.processed_files[j - 1].1 == hash);
            let entry = (filename, hash);
            self.processed_files.set(j - 1, entry);
            assert forall|nm: Seq<char>| #[trigger] recorded_hash(self.processed_files@, nm) == if nm == entry.0@ {
                Some(entry.1@)
            } else {
                recorded_hash(before, nm)
            } by {
                lemma_recorded_set(before, (j - 1) as int, entry, nm);
            }
            changed
        } else {
            let entry = (filename, hash);
            self.processed_files.push(entry);
            assert forall|nm: Seq<char>| #[trigger] recorded_hash(self.processed_files@, nm) == if nm == entry.0@ {
                Some(entry.1@)
            } else {
                recorded_hash(before, nm)
            } by {
                assert(self.processed_files@.drop_last() =~= before);
            }
            true
        }
    }
}

proof fn lemma_recorded_set(reg: Seq<(String, String)>, j: int, e: (String, String), nm: Seq<char>)
    requires
        0 <= j < reg.len(),
        reg[j].0@ == e.0@,
        forall|k: int| j < k < reg.len() ==> reg[k].0@ != e.0@,
    ensures
        recorded_hash(reg.update(j, e), nm) == if nm == e.0@ {
            Some(e.1@)
        } else {
            recorded_hash(reg, nm)
        },
    decreases reg.len(),
{
    let r2 = reg.update(j, e);
    if j < reg.len() - 1 {
        assert(r2.drop_last() =~= reg.drop_last().update(j, e));
        lemma_recorded_set(reg.drop_last(), j, e, nm);
    } else {
        assert(r2.drop_last() =~= reg.drop_last());
    }
}

/// Compute targets the engine can dispatch to.
#[derive(Debug, Clone, Copy, PartialEq, Eq, Structural)]
pub enum AcceleratorType {
    SimdCpu,
    WgpuGpu,
    MockNpu,
}

/// Dispatch target: the CPU when overheated, else a GPU if there is one, else
/// an NPU if there is one, else the CPU.
pub fn select_accelerator(available: &[AcceleratorType], overheated: bool) -> (r: AcceleratorType)
    ensures
        r == if overheated {
            AcceleratorType::SimdCpu
        } else if available@.contains(AcceleratorType::WgpuGpu) {
            AcceleratorType::WgpuGpu
        } else if available@.contains(AcceleratorType::MockNpu) {
            AcceleratorType::MockNpu
        } else {
            AcceleratorType::SimdCpu
        },
{
    if overheated {
        return AcceleratorType::SimdCpu;
    }
    let mut has_gpu = false;
    let mut has_npu = false;
    let mut i: usize = 0;
    while i < available.len()
        invariant
            i <= available@.len(),
            has_gpu == available@.subrange(0, i as int).contains(AcceleratorType::WgpuGpu),
            has_npu == available@.subrange(0, i as int).contains(AcceleratorType::MockNpu),
        decreases available@.len() - i,
    {
        let a = available[i];
        proof {
            let pre = available@.subrange(0, i as int);
            let next = available@.subrange(0, i + 1);
            assert(next =~= pre.push(a));
            assert forall|x: AcceleratorType| next.contains(x) == (pre.contains(x) || x == a) by {
                if next.contains(x) {
                    let k = choose|k: int| 0 <= k < next.len() && next[k] == x;
                    if k < i {
                        assert(pre[k] == x);
                    }
                }
                if pre.contains(x) {
                    let k = choose|k: int| 0 <= k < pre.len() && pre[k] == x;
                    assert(next[k] == x);
                }
                if x == a {
                    assert(next[i as int] == x);
                }
            }
        }
        if a == AcceleratorType::WgpuGpu {
            has_gpu = true;
        }
        if a == AcceleratorType::MockNpu {
            has_npu = true;
        }
        i += 1;
    }
    assert(available@.subrange(0, available@.len() as int) =~= available@);
    if has_gpu {
        AcceleratorType::WgpuGpu
    } else if has_npu {
        AcceleratorType::MockNpu
    } else {
        AcceleratorType::SimdCpu
    }
}

/// A message published on the agent bus.
#[derive(Debug, Clone)]
pub struct BusMessage {
    pub publisher_id: String,
    pub concept: Concept6D,
    pub payload: String,
}

/// The studio dashboard.
pub struct ZymaticaStudio;

} // verus!
