use vstd::prelude::*;
use vstd::string::StringExecFns;
use crate::point::Point;
use crate::text::{summary, summary_of};

verus! {

/// The sixteen digits that a hash is written with.
pub open spec fn hex_digits() -> Seq<char> {
    seq!['0', '1', '2', '3', '4', '5', '6', '7', '8', '9', 'a', 'b', 'c', 'd', 'e', 'f']
}

/// `bytes` written with two digits each, the high half first.
pub open spec fn hex_of(bytes: Seq<u8>) -> Seq<char>
    decreases bytes.len(),
{
    if bytes.len() == 0 {
        Seq::empty()
    } else {
        hex_of(bytes.drop_last()) + seq![
            hex_digits()[bytes.last() as int / 16],
            hex_digits()[bytes.last() as int % 16],
        ]
    }
}

/// Each byte gives two digits.
pub proof fn lemma_hex_len(bytes: Seq<u8>)
    ensures
        hex_of(bytes).len() == 2 * bytes.len(),
    decreases bytes.len(),
{
    if bytes.len() > 0 {
        lemma_hex_len(bytes.drop_last());
    }
}

/// The identifier of a commit: the twenty bytes of its hash.
///
/// Two identifiers are equal exactly when their bytes are.
#[derive(Clone, Copy, Debug, Hash)]
pub struct CommitId {
    pub bytes: [u8; 20],
}

impl CommitId {
    /// The identifier made of `bytes`.
    pub fn from_bytes(bytes: [u8; 20]) -> (id: Self)
        ensures
            id.bytes == bytes,
    {
        CommitId { bytes }
    }

    /// The hash as forty digits, as it is written everywhere.
    pub fn to_hex(&self) -> (text: String)
        ensures
            text@ == hex_of(self.bytes@),
            text@.len() == 40,
    {
        let digits = "0123456789abcdef";
        proof {
            reveal_strlit("0123456789abcdef");
            assert(digits@ =~= hex_digits());
            assert(self.bytes@.take(0) =~= Seq::<u8>::empty());
        }
        let mut text = String::new();
        let mut i: usize = 0;
        while i < 20
            invariant
                i <= 20,
                digits@ == hex_digits(),
                text@ == hex_of(self.bytes@.take(i as int)),
            decreases 20 - i,
        {
            let byte = self.bytes[i];
            let high = (byte / 16) as usize;
            let low = (byte % 16) as usize;
            proof {
                let upto = self.bytes@.take(i + 1);
                assert(upto.drop_last() =~= self.bytes@.take(i as int));
                assert(upto.last() == byte);
                assert(digits@.subrange(high as int, high + 1) =~= seq![hex_digits()[high as int]]);
                assert(digits@.subrange(low as int, low + 1) =~= seq![hex_digits()[low as int]]);
                assert(text@ + seq![hex_digits()[high as int]] + seq![hex_digits()[low as int]]
                    =~= text@ + seq![hex_digits()[high as int], hex_digits()[low as int]]);
            }
            text.append(digits.substring_char(high, high + 1));
            text.append(digits.substring_char(low, low + 1));
            i += 1;
        }
        proof {
            assert(self.bytes@.take(20) =~= self.bytes@);
            lemma_hex_len(self.bytes@);
        }
        text
    }

    /// The bytes of the hash.
    pub fn as_bytes(&self) -> (bytes: &[u8; 20])
        ensures
            *bytes == self.bytes,
    {
        &self.bytes
    }
}

impl PartialEq for CommitId {
    fn eq(&self, other: &Self) -> (r: bool) {
        let mut i: usize = 0;
        while i < 20
            invariant
                i <= 20,
                forall|j: int| 0 <= j < i ==> self.bytes[j] == other.bytes[j],
            decreases 20 - i,
        {
            if self.bytes[i] != other.bytes[i] {
                return false;
            }
            i += 1;
        }
        proof {
            assert(self.bytes =~= other.bytes);
        }
        true
    }
}

impl Eq for CommitId {

}

impl vstd::std_specs::cmp::PartialEqSpecImpl for CommitId {
    open spec fn obeys_eq_spec() -> bool {
        true
    }

    open spec fn eq_spec(&self, other: &Self) -> bool {
        *self == *other
    }
}

/// A commit of the graph: what the repository says of it, and the place
/// where it is drawn.
#[derive(Debug, Clone)]
pub struct CommitNode {
    pub oid: CommitId,
    pub message: String,
    pub author: String,
    /// Seconds since the epoch.
    pub timestamp: i64,
    /// The parents in order, the first parent first.
    pub parents: Vec<CommitId>,
    pub position: Point,
}

impl CommitNode {
    /// The node with these values.
    pub fn new(
        oid: CommitId,
        message: String,
        author: String,
        timestamp: i64,
        parents: Vec<CommitId>,
        position: Point,
    ) -> (node: Self)
        ensures
            node.oid == oid,
            node.message == message,
            node.author == author,
            node.timestamp == timestamp,
            node.parents == parents,
            node.position == position,
    {
        CommitNode { oid, message, author, timestamp, parents, position }
    }

    /// The first line of the message, which stands for the commit in a
    /// list.
    pub fn summary(&self) -> (line: String)
        ensures
            line@ == summary_of(self.message@),
    {
        summary(self.message.as_str())
    }
}

} // verus!
