//! Feature sets and the hash that identifies them.

use crate::canonical::{
    canonical_features, canonical_text, concat_features, lemma_same_multiset_same_set,
};
use crate::hashing::{sha256, sha256_digest};
use crate::hex::{
    is_lower_hex_digit, lemma_lower_hex_injective, lemma_lower_hex_shape, lower_hex, to_lower_hex,
};
use vstd::prelude::*;
use vstd::seq_lib::*;
use vstd::string::*;
use vstd::utf8::*;

verus! {

/// The number of characters of a hash: two for each of the 32 bytes of a
/// SHA-256 digest.
pub const HASH_LEN: usize = 64;

/// The number of trailing characters of the hash that make up a derived
/// nickname.
pub const NICKNAME_LEN: usize = 6;

/// The hash of a list of feature names: the SHA-256 digest of the UTF-8
/// bytes of its canonical text, in lowercase hexadecimal.
///
/// The names are joined with nothing in between, so lists with different
/// names can share a canonical text and with it a hash: `["ab", "c"]` and
/// `["a", "bc"]` both give the text `"abc"`.
pub open spec fn colset_digest(features: Seq<Seq<char>>) -> Seq<char> {
    lower_hex(sha256(encode_utf8(canonical_text(features)))@)
}

/// `HASH_LEN` lowercase hexadecimal digits.
pub open spec fn is_hash_text(text: Seq<char>) -> bool {
    &&& text.len() == HASH_LEN
    &&& forall|i: int| 0 <= i < text.len() ==> is_lower_hex_digit(#[trigger] text[i])
}

/// The nickname derived from a hash: its last `NICKNAME_LEN` characters.
pub open spec fn derived_nickname(hash: Seq<char>) -> Seq<char> {
    hash.subrange(hash.len() - NICKNAME_LEN, hash.len() as int)
}

/// Every hash is a text of `HASH_LEN` lowercase hexadecimal digits.
pub proof fn lemma_colset_digest_shape(features: Seq<Seq<char>>)
    ensures
        is_hash_text(colset_digest(features)),
{
    let digest = sha256(encode_utf8(canonical_text(features)));
    lemma_lower_hex_shape(digest@);
}

/// Computes the hash that identifies the set of names in `strings`,
/// whatever their order and however often each occurs.
pub fn hash_colset(strings: &Vec<String>) -> (hash: String)
    ensures
        hash@ == colset_digest(strings.deep_view()),
        is_hash_text(hash@),
{
    let unique_strings = canonical_features(strings);
    let joined = concat_features(&unique_strings);
    let digest = sha256_digest(joined.as_str().as_bytes());
    proof {
        lemma_colset_digest_shape(strings.deep_view());
    }
    to_lower_hex(digest.as_slice())
}

/// Cuts the nickname that belongs to a hash out of it: its last
/// `NICKNAME_LEN` characters. A text shorter than that has no such nickname.
pub fn derive_nickname(colset_hash: &str) -> (nickname: String)
    requires
        colset_hash@.len() >= NICKNAME_LEN,
    ensures
        nickname@ == derived_nickname(colset_hash@),
{
    let len = colset_hash.unicode_len();
    colset_hash.substring_char(len - NICKNAME_LEN, len).to_owned()
}

/// A list of feature names with the hash of the set they form and a short
/// label for display.
#[derive(Debug)]
pub struct ColSet {
    /// The feature names as supplied: in the order given, repetitions kept.
    pub feature_vector: Vec<String>,
    /// The hash of the set of names in `feature_vector`.
    pub colset_hash: String,
    /// A label chosen by the caller, or derived from the hash.
    pub nickname: String,
}

/// What a [`ColSet`] holds, as mathematical values.
pub struct ColSetView {
    pub features: Seq<Seq<char>>,
    pub hash: Seq<char>,
    pub nickname: Seq<char>,
}

impl ColSetView {
    /// The hash is the one that belongs to the features.
    pub open spec fn wf(self) -> bool {
        self.hash == colset_digest(self.features)
    }
}

impl View for ColSet {
    type V = ColSetView;

    open spec fn view(&self) -> ColSetView {
        ColSetView {
            features: self.feature_vector.deep_view(),
            hash: self.colset_hash@,
            nickname: self.nickname@,
        }
    }
}

impl ColSet {
    /// The stored hash is the one that belongs to the stored features. The
    /// constructors establish this; the fields are public, so a value built
    /// or changed by hand need not have it.
    pub open spec fn wf(&self) -> bool {
        self@.wf()
    }

    /// Makes a feature set from a list of names. Its nickname is derived
    /// from the hash.
    pub fn new(feature_vector: Vec<String>) -> (set: ColSet)
        ensures
            set.feature_vector == feature_vector,
            set@.hash == colset_digest(feature_vector.deep_view()),
            set@.nickname == derived_nickname(set@.hash),
            set.wf(),
    {
        let colset_hash = hash_colset(&feature_vector);
        let nickname = derive_nickname(colset_hash.as_str());
        ColSet { feature_vector, colset_hash, nickname }
    }

    /// Makes a feature set from a list of names and a nickname, which is
    /// stored as it is.
    pub fn new_with_nickname(feature_vector: Vec<String>, nickname: String) -> (set: ColSet)
        ensures
            set.feature_vector == feature_vector,
            set@.hash == colset_digest(feature_vector.deep_view()),
            set.nickname == nickname,
            set.wf(),
    {
        let colset_hash: String = hash_colset(&feature_vector);
        ColSet { feature_vector, colset_hash, nickname }
    }

    /// The stored nickname.
    pub fn get_nickname(&self) -> (nickname: &String)
        ensures
            *nickname == self.nickname,
    {
        &self.nickname
    }
}

/// Makes a new feature set from the names of `parent` and one more name at
/// the end. `parent` stays as it is, and its nickname is not passed on: the
/// new set gets the nickname derived from its own hash.
pub fn add_one_to_colset(parent: &ColSet, new_feature: &String) -> (child: ColSet)
    ensures
        child.feature_vector@ == parent.feature_vector@.push(*new_feature),
        child@.features == parent@.features.push(new_feature@),
        child@.hash == colset_digest(parent@.features.push(new_feature@)),
        child@.nickname == derived_nickname(child@.hash),
        child.wf(),
{
    let mut new_feature_vector = parent.feature_vector.clone();
    new_feature_vector.push(new_feature.clone());
    assert(new_feature_vector@ =~= parent.feature_vector@.push(*new_feature));
    assert(new_feature_vector.deep_view() =~= parent@.features.push(new_feature@));
    ColSet::new(new_feature_vector)
}

/// Tests whether two feature sets carry the same hash. Where both hashes
/// belong to their features, this is the test for the same set of names:
/// it succeeds whenever the two lists hold the same names.
pub fn identical_colset_hash(colset1: &ColSet, colset2: &ColSet) -> (same: bool)
    ensures
        same == (colset1@.hash == colset2@.hash),
        colset1.wf() && colset2.wf() && colset1@.features.to_set() == colset2@.features.to_set()
            ==> same,
{
    colset1.colset_hash == colset2.colset_hash
}

/// Determinism: the hash depends on the set of names alone. Lists that hold
/// the same names have the same hash, a text of `HASH_LEN` lowercase
/// hexadecimal digits.
pub proof fn lemma_same_names_same_hash(l1: Seq<Seq<char>>, l2: Seq<Seq<char>>)
    requires
        l1.to_set() == l2.to_set(),
    ensures
        colset_digest(l1) == colset_digest(l2),
        is_hash_text(colset_digest(l1)),
{
    lemma_colset_digest_shape(l1);
}

/// Order invariance: a list and any rearrangement of it have the same hash.
pub proof fn lemma_order_invariance(l1: Seq<Seq<char>>, l2: Seq<Seq<char>>)
    requires
        l1.to_multiset() == l2.to_multiset(),
    ensures
        colset_digest(l1) == colset_digest(l2),
{
    lemma_same_multiset_same_set(l1, l2);
}

/// Duplicate invariance: adding a name that the list already holds does not
/// change the hash.
pub proof fn lemma_duplicate_invariance(l: Seq<Seq<char>>, e: Seq<char>)
    requires
        l.contains(e),
    ensures
        colset_digest(l.push(e)) == colset_digest(l),
{
    l.lemma_push_to_set_commute(e);
    assert(l.to_set().insert(e) =~= l.to_set());
}

/// Identity: two lists have the same hash if and only if they hold the same
/// names, as long as neither of the two known ambiguities is met. The first
/// is that of joining names with nothing in between, by which lists with
/// different names can have the same canonical text. The second is a
/// collision of SHA-256 on the two canonical texts.
pub proof fn lemma_identity_equivalence(l1: Seq<Seq<char>>, l2: Seq<Seq<char>>)
    requires
        canonical_text(l1) == canonical_text(l2) ==> l1.to_set() == l2.to_set(),
        sha256(encode_utf8(canonical_text(l1))) == sha256(encode_utf8(canonical_text(l2)))
            ==> canonical_text(l1) == canonical_text(l2),
    ensures
        colset_digest(l1) == colset_digest(l2) <==> l1.to_set() == l2.to_set(),
{
    if colset_digest(l1) == colset_digest(l2) {
        let d1 = sha256(encode_utf8(canonical_text(l1)));
        let d2 = sha256(encode_utf8(canonical_text(l2)));
        lemma_lower_hex_injective(d1@, d2@);
        assert(d1 == d2);
    }
}

} // verus!
