//! Comparisons that are kept for later questions.

use vstd::prelude::*;
use vstd::string::*;

use crate::diff::declarations::{Declaration, DeclarationKind};
use crate::diff::fingerprint::FunctionFingerprint;
use crate::diff::matching::DiffResult;
use crate::digest::sha256;
use crate::text::{same_bytes, same_text};

use crate::diff::hashes;
use crate::digest;

pub mod answers;
pub mod file;

pub use file::{read_dump, write_dump, DumpError};

verus! {

/// What a kept comparison holds besides the comparison.
#[derive(Debug, Clone, Copy, PartialEq, Eq, Structural)]
pub struct DumpFlags {
    pub compressed: bool,
    pub has_source_preview: bool,
    pub has_similarity_matrix: bool,
}

impl Default for DumpFlags {
    fn default() -> (flags: Self)
        ensures
            flags == (DumpFlags {
                compressed: false,
                has_source_preview: false,
                has_similarity_matrix: false,
            }),
    {
        DumpFlags { compressed: false, has_source_preview: false, has_similarity_matrix: false }
    }
}

/// What identifies a kept comparison.
#[derive(Debug, Clone, Copy)]
pub struct DumpHeader {
    pub magic: [u8; 4],
    pub version: u32,
    pub flags: DumpFlags,
}

/// How two texts were compared.
#[derive(Debug, Clone, Copy, PartialEq, Eq, Structural)]
pub struct DiffConfig {
    pub use_fingerprints: bool,
    pub parallel_matching: bool,
    /// The bits of the similarity from which on declarations match.
    pub threshold: u64,
}

/// Where a kept comparison comes from.
#[derive(Debug, Clone)]
pub struct DumpMetadata {
    pub tool_version: String,
    pub timestamp: u64,
    pub config: DiffConfig,
}

/// A declaration without the syntax that is compared.
#[derive(Debug, Clone)]
pub struct SerializableDeclaration {
    pub name: String,
    pub kind: DeclarationKind,
    pub line: usize,
    pub end_line: usize,
    pub start_byte: usize,
    pub end_byte: usize,
    pub signature: String,
    /// Ascending, each once.
    pub structural_hashes: Vec<u64>,
    pub size: usize,
    pub minhash_signature: Vec<u64>,
    pub fingerprint: Option<FunctionFingerprint>,
}

impl SerializableDeclaration {
    /// What is kept of a declaration.
    pub fn of(declaration: Declaration) -> (kept: SerializableDeclaration)
        ensures
            kept.name@ == declaration.name@,
            kept.kind == declaration.kind,
            kept.line == declaration.line,
            kept.end_line == declaration.end_line,
            kept.start_byte == declaration.start_byte,
            kept.end_byte == declaration.end_byte,
            kept.signature@ == declaration.signature@,
            kept.structural_hashes@ == declaration.structural_hashes@,
            kept.size == declaration.size,
            kept.minhash_signature@ == declaration.minhash_signature@,
            kept.fingerprint == declaration.fingerprint,
    {
        let mut minhash_signature: Vec<u64> = Vec::new();
        let mut i: usize = 0;
        while i < hashes::MINHASH_LANES
            invariant
                i <= declaration.minhash_signature@.len(),
                declaration.minhash_signature@.len() == hashes::MINHASH_LANES,
                minhash_signature@ == declaration.minhash_signature@.take(i as int),
            decreases hashes::MINHASH_LANES - i,
        {
            minhash_signature.push(declaration.minhash_signature[i]);
            i += 1;
            assert(declaration.minhash_signature@.take(i as int)
                =~= declaration.minhash_signature@.take(i - 1).push(
                declaration.minhash_signature@[i - 1],
            ));
        }
        assert(declaration.minhash_signature@.take(i as int)
            =~= declaration.minhash_signature@);
        SerializableDeclaration {
            name: declaration.name,
            kind: declaration.kind,
            line: declaration.line,
            end_line: declaration.end_line,
            start_byte: declaration.start_byte,
            end_byte: declaration.end_byte,
            signature: declaration.signature,
            structural_hashes: declaration.structural_hashes,
            size: declaration.size,
            minhash_signature,
            fingerprint: declaration.fingerprint,
        }
    }
}

/// What a declaration was matched with, and why.
#[derive(Debug, Clone)]
pub struct MatchDecision {
    pub matched_to: Option<usize>,
    /// The reason as it is shown.
    pub reason: String,
}

/// A declaration with what is known about its match.
#[derive(Debug, Clone)]
pub struct DeclarationWithContext {
    pub decl: SerializableDeclaration,
    pub match_decision: Option<MatchDecision>,
}

/// One of the two texts.
#[derive(Debug, Clone)]
pub struct FileData {
    pub path: String,
    pub content_hash: [u8; 32],
    pub declarations: Vec<DeclarationWithContext>,
    pub source_preview: Option<String>,
}

/// The rows of two declarations that match.
#[derive(Debug, Clone)]
pub struct MatchPair {
    pub idx1: usize,
    pub idx2: usize,
    /// The bits of the similarity.
    pub similarity: u64,
    /// The similarity as it is shown.
    pub percent: String,
    pub evidence_count: usize,
}

/// The matches of a comparison.
#[derive(Debug, Clone)]
pub struct MatchingData {
    pub matches: Vec<MatchPair>,
}

/// A kept comparison.
#[derive(Debug, Clone)]
pub struct AstDiffDump {
    pub header: DumpHeader,
    pub metadata: DumpMetadata,
    pub file1_data: FileData,
    pub file2_data: FileData,
    pub matching: MatchingData,
    pub diff_result: DiffResult,
}

/// Whether rows are declarations without anything known about their matches.
pub open spec fn are_bare(
    rows: Seq<DeclarationWithContext>,
    list: Seq<SerializableDeclaration>,
) -> bool {
    &&& rows.len() == list.len()
    &&& forall|i: int|
        0 <= i < rows.len() ==> (#[trigger] rows[i]).decl == list[i] && rows[i].match_decision
            is None
}

fn bare(list: Vec<SerializableDeclaration>) -> (rows: Vec<DeclarationWithContext>)
    ensures
        are_bare(rows@, list@),
{
    let ghost all = list@;
    let mut left = list;
    let mut rows: Vec<DeclarationWithContext> = Vec::new();
    let mut rest: Vec<SerializableDeclaration> = Vec::new();
    while left.len() > 0
        invariant
            left@ + rest@.reverse() =~= all,
        decreases left@.len(),
    {
        let ghost (before_left, before_rest) = (left@, rest@);
        if let Some(d) = left.pop() {
            rest.push(d);
            assert(left@ + rest@.reverse() =~= before_left + before_rest.reverse());
        }
    }
    assert(rest@.reverse() =~= all);
    while rest.len() > 0
        invariant
            are_bare(rows@, all.take(rows@.len() as int)),
            rows@.len() + rest@.len() == all.len(),
            forall|k: int|
                0 <= k < rest@.len() ==> #[trigger] rest@[k] == all[all.len() - 1 - k],
        decreases rest@.len(),
    {
        let ghost before = rows@;
        if let Some(decl) = rest.pop() {
            assert(decl == all[before.len() as int]);
            rows.push(DeclarationWithContext { decl, match_decision: None });
            assert forall|i: int| 0 <= i < rows@.len() implies (#[trigger] rows@[i]).decl
                == all.take(rows@.len() as int)[i] && rows@[i].match_decision is None by {
                if i < before.len() {
                    assert(rows@[i] == before[i]);
                    assert(before[i].decl == all.take(before.len() as int)[i]);
                }
            }
        }
    }
    assert(all.take(rows@.len() as int) =~= all);
    rows
}

fn pairs(list: &Vec<(usize, usize, u64, String)>) -> (rows: Vec<MatchPair>)
    ensures
        rows@.len() == list@.len(),
        forall|i: int|
            0 <= i < rows@.len() ==> is_pair(#[trigger] rows@[i], list@[i]),
{
    let mut rows: Vec<MatchPair> = Vec::new();
    let mut i: usize = 0;
    while i < list.len()
        invariant
            i <= list@.len(),
            rows@.len() == i,
            forall|k: int| 0 <= k < i ==> is_pair(#[trigger] rows@[k], list@[k]),
        decreases list@.len() - i,
    {
        let percent = list[i].3.clone();
        rows.push(
            MatchPair {
                idx1: list[i].0,
                idx2: list[i].1,
                similarity: list[i].2,
                percent,
                evidence_count: 0,
            },
        );
        i += 1;
    }
    rows
}

/// Whether a row is a pair without evidence.
pub open spec fn is_pair(row: MatchPair, pair: (usize, usize, u64, String)) -> bool {
    &&& row.idx1 == pair.0
    &&& row.idx2 == pair.1
    &&& row.similarity == pair.2
    &&& row.percent@ == pair.3@
    &&& row.evidence_count == 0
}

/// The row of the first declaration with a name, from `i` on.
pub open spec fn named_from(rows: Seq<DeclarationWithContext>, name: Seq<char>, i: int) -> Option<
    int,
>
    decreases rows.len() - i,
{
    if i < 0 || i >= rows.len() {
        None
    } else if rows[i].decl.name@ == name {
        Some(i)
    } else {
        named_from(rows, name, i + 1)
    }
}

/// The row of the first declaration with a name.
pub fn find_named(rows: &Vec<DeclarationWithContext>, name: &str) -> (r: Option<usize>)
    ensures
        match (r, named_from(rows@, name@, 0)) {
            (Some(row), Some(found)) => row == found && row < rows@.len(),
            (None, None) => true,
            _ => false,
        },
{
    let mut i: usize = 0;
    while i < rows.len()
        invariant
            i <= rows@.len(),
            named_from(rows@, name@, 0) == named_from(rows@, name@, i as int),
        decreases rows@.len() - i,
    {
        if same_text(rows[i].decl.name.as_str(), name) {
            return Some(i);
        }
        i += 1;
    }
    None
}

/// The row of the first match of a declaration of the first text, from `i` on.
pub open spec fn match_from(matches: Seq<MatchPair>, row: usize, i: int) -> Option<int>
    decreases matches.len() - i,
{
    if i < 0 || i >= matches.len() {
        None
    } else if matches[i].idx1 == row {
        Some(i)
    } else {
        match_from(matches, row, i + 1)
    }
}

/// A match that is found is one of the matches.
pub proof fn lemma_match_from(matches: Seq<MatchPair>, row: usize, i: int)
    requires
        0 <= i,
    ensures
        match_from(matches, row, i) matches Some(found) ==> i <= found < matches.len()
            && matches[found].idx1 == row,
    decreases matches.len() - i,
{
    if i < matches.len() && matches[i].idx1 != row {
        lemma_match_from(matches, row, i + 1);
    }
}

/// Whether a declaration of one of the texts has a match.
pub open spec fn is_matched(matches: Seq<MatchPair>, first: bool, row: int) -> bool {
    exists|k: int|
        0 <= k < matches.len() && #[trigger] row_in(matches[k], first) == row
}

/// The row of a match in one of the texts.
pub open spec fn row_in(pair: MatchPair, first: bool) -> int {
    if first {
        pair.idx1 as int
    } else {
        pair.idx2 as int
    }
}

/// The rows without a match among the first `count` of one of the texts.
pub open spec fn unmatched_upto(matches: Seq<MatchPair>, first: bool, count: int) -> Seq<int>
    decreases count,
{
    if count <= 0 {
        Seq::empty()
    } else {
        let ahead = unmatched_upto(matches, first, count - 1);
        if is_matched(matches, first, count - 1) {
            ahead
        } else {
            ahead.push(count - 1)
        }
    }
}

/// Whether declarations are those at some rows.
pub open spec fn are_rows(
    found: Seq<&DeclarationWithContext>,
    rows: Seq<DeclarationWithContext>,
    at: Seq<int>,
) -> bool {
    &&& found.len() == at.len()
    &&& forall|k: int| 0 <= k < found.len() ==> *(#[trigger] found[k]) == rows[at[k]]
}

fn has_match(matches: &Vec<MatchPair>, first: bool, row: usize) -> (r: bool)
    ensures
        r == is_matched(matches@, first, row as int),
{
    let mut i: usize = 0;
    while i < matches.len()
        invariant
            i <= matches@.len(),
            forall|k: int| 0 <= k < i ==> #[trigger] row_in(matches@[k], first) != row,
        decreases matches@.len() - i,
    {
        let found: usize = if first {
            matches[i].idx1
        } else {
            matches[i].idx2
        };
        if found == row {
            assert(row_in(matches@[i as int], first) == row);
            return true;
        }
        i += 1;
    }
    false
}

fn without_match<'a>(
    rows: &'a Vec<DeclarationWithContext>,
    matches: &Vec<MatchPair>,
    first: bool,
) -> (found: Vec<&'a DeclarationWithContext>)
    ensures
        are_rows(found@, rows@, unmatched_upto(matches@, first, rows@.len() as int)),
{
    let mut found: Vec<&'a DeclarationWithContext> = Vec::new();
    let mut i: usize = 0;
    while i < rows.len()
        invariant
            i <= rows@.len(),
            are_rows(found@, rows@, unmatched_upto(matches@, first, i as int)),
        decreases rows@.len() - i,
    {
        if !has_match(matches, first, i) {
            found.push(&rows[i]);
        }
        i += 1;
    }
    found
}

impl AstDiffDump {
    /// A kept comparison of two texts, of which the contents are hashed.
    pub fn new(
        file1_path: String,
        file2_path: String,
        content1: &[u8],
        content2: &[u8],
        file1_decls: Vec<SerializableDeclaration>,
        file2_decls: Vec<SerializableDeclaration>,
        matches: &Vec<(usize, usize, u64, String)>,
        diff_result: DiffResult,
        config: DiffConfig,
        tool_version: String,
        timestamp: u64,
    ) -> (dump: AstDiffDump)
        ensures
            dump.header.magic@ == seq![0x41u8, 0x53, 0x54, 0x44],
            dump.header.version == file::CURRENT_VERSION,
            dump.header.flags == (DumpFlags {
                compressed: true,
                has_source_preview: false,
                has_similarity_matrix: false,
            }),
            dump.metadata.tool_version@ == tool_version@,
            dump.metadata.timestamp == timestamp,
            dump.metadata.config == config,
            dump.file1_data.path@ == file1_path@,
            dump.file1_data.content_hash@ == digest::sha256_of(content1@),
            are_bare(dump.file1_data.declarations@, file1_decls@),
            dump.file1_data.source_preview is None,
            dump.file2_data.path@ == file2_path@,
            dump.file2_data.content_hash@ == digest::sha256_of(content2@),
            are_bare(dump.file2_data.declarations@, file2_decls@),
            dump.file2_data.source_preview is None,
            dump.matching.matches@.len() == matches@.len(),
            forall|i: int|
                0 <= i < matches@.len() ==> is_pair(
                    #[trigger] dump.matching.matches@[i],
                    matches@[i],
                ),
            dump.diff_result == diff_result,
    {
        AstDiffDump {
            header: DumpHeader {
                magic: file::magic_bytes(),
                version: file::CURRENT_VERSION,
                flags: DumpFlags {
                    compressed: true,
                    has_source_preview: false,
                    has_similarity_matrix: false,
                },
            },
            metadata: DumpMetadata { tool_version, timestamp, config },
            file1_data: FileData {
                path: file1_path,
                content_hash: sha256(content1),
                declarations: bare(file1_decls),
                source_preview: None,
            },
            file2_data: FileData {
                path: file2_path,
                content_hash: sha256(content2),
                declarations: bare(file2_decls),
                source_preview: None,
            },
            matching: MatchingData { matches: pairs(matches) },
            diff_result,
        }
    }

    /// The first declaration with a name: of the first text, or else of the
    /// second.
    pub fn find_declaration(&self, name: &str) -> (r: Option<&DeclarationWithContext>)
        ensures
            ({
                let rows1 = self.file1_data.declarations@;
                let rows2 = self.file2_data.declarations@;
                match named_from(rows1, name@, 0) {
                    Some(row) => r == Some(&rows1[row]),
                    None => match named_from(rows2, name@, 0) {
                        Some(row) => r == Some(&rows2[row]),
                        None => r is None,
                    },
                }
            }),
    {
        match find_named(&self.file1_data.declarations, name) {
            Some(row) => Some(&self.file1_data.declarations[row]),
            None => match find_named(&self.file2_data.declarations, name) {
                Some(row) => Some(&self.file2_data.declarations[row]),
                None => None,
            },
        }
    }

    /// The match of a declaration of the first text.
    pub fn get_match_for(&self, file1_decl_idx: usize) -> (r: Option<&MatchPair>)
        ensures
            match match_from(self.matching.matches@, file1_decl_idx, 0) {
                Some(row) => r == Some(&self.matching.matches@[row]),
                None => r is None,
            },
    {
        let matches = &self.matching.matches;
        let mut i: usize = 0;
        while i < matches.len()
            invariant
                matches == &self.matching.matches,
                i <= matches@.len(),
                match_from(matches@, file1_decl_idx, 0) == match_from(
                    matches@,
                    file1_decl_idx,
                    i as int,
                ),
            decreases matches@.len() - i,
        {
            if matches[i].idx1 == file1_decl_idx {
                return Some(&matches[i]);
            }
            i += 1;
        }
        None
    }

    /// The declarations of the first text without a match.
    pub fn unmatched_from_file1(&self) -> (found: Vec<&DeclarationWithContext>)
        ensures
            are_rows(
                found@,
                self.file1_data.declarations@,
                unmatched_upto(
                    self.matching.matches@,
                    true,
                    self.file1_data.declarations@.len() as int,
                ),
            ),
    {
        without_match(&self.file1_data.declarations, &self.matching.matches, true)
    }

    /// The declarations of the second text without a match.
    pub fn unmatched_from_file2(&self) -> (found: Vec<&DeclarationWithContext>)
        ensures
            are_rows(
                found@,
                self.file2_data.declarations@,
                unmatched_upto(
                    self.matching.matches@,
                    false,
                    self.file2_data.declarations@.len() as int,
                ),
            ),
    {
        without_match(&self.file2_data.declarations, &self.matching.matches, false)
    }

    /// Whether two texts are those that were compared.
    pub fn validate(&self, content1: &[u8], content2: &[u8]) -> (r: bool)
        ensures
            r == (digest::sha256_of(content1@) == self.file1_data.content_hash@
                && digest::sha256_of(content2@) == self.file2_data.content_hash@),
    {
        let hash1 = sha256(content1);
        let hash2 = sha256(content2);
        same_bytes(hash1.as_slice(), self.file1_data.content_hash.as_slice()) && same_bytes(
            hash2.as_slice(),
            self.file2_data.content_hash.as_slice(),
        )
    }
}

/// A row is without a match exactly when it is among the unmatched rows.
pub proof fn law_rows_are_matched_or_unmatched(
    matches: Seq<MatchPair>,
    first: bool,
    row: int,
    count: int,
)
    requires
        0 <= row < count,
    ensures
        unmatched_upto(matches, first, count).contains(row) == !is_matched(matches, first, row),
    decreases count,
{
    let ahead = unmatched_upto(matches, first, count - 1);
    let all = unmatched_upto(matches, first, count);
    if row < count - 1 {
        law_rows_are_matched_or_unmatched(matches, first, row, count - 1);
        if ahead.contains(row) {
            let k = choose|k: int| 0 <= k < ahead.len() && ahead[k] == row;
            assert(all[k] == row);
        }
        if all.contains(row) {
            let k = choose|k: int| 0 <= k < all.len() && all[k] == row;
            if k < ahead.len() {
                assert(ahead[k] == row);
            }
        }
    } else {
        lemma_unmatched_rows_are_below(matches, first, count - 1);
        if !is_matched(matches, first, row) {
            assert(all[ahead.len() as int] == row);
        } else if all.contains(row) {
            let k = choose|k: int| 0 <= k < all.len() && all[k] == row;
            assert(ahead[k] < count - 1);
        }
    }
}

proof fn lemma_unmatched_rows_are_below(matches: Seq<MatchPair>, first: bool, count: int)
    ensures
        forall|k: int|
            0 <= k < unmatched_upto(matches, first, count).len() ==> #[trigger] unmatched_upto(
                matches,
                first,
                count,
            )[k] < count,
    decreases count,
{
    if count > 0 {
        lemma_unmatched_rows_are_below(matches, first, count - 1);
        let ahead = unmatched_upto(matches, first, count - 1);
        let all = unmatched_upto(matches, first, count);
        assert forall|k: int| 0 <= k < all.len() implies #[trigger] all[k] < count by {
            if k < ahead.len() {
                assert(ahead[k] < count - 1);
            }
        }
    }
}

} // verus!
