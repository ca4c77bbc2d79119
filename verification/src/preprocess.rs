//! The candidate preprocessor: turns a display string into the byte key that
//! the scorer compares, and pairs both in a `Candidate`.

use crate::parallel::par_map;
use vstd::prelude::*;
use vstd::utf8::*;

verus! {

/// The byte that normalization removes.
pub const SPACE: u8 = 0x20;

/// The text that `str::to_lowercase` of the standard library returns for `s`.
pub uninterp spec fn lowercase_text(s: Seq<char>) -> Seq<char>;

/// `str::to_lowercase`: the Unicode lowercase form of the text, named by
/// `lowercase_text`; nothing else is claimed of it.
pub assume_specification[ str::to_lowercase ](s: &str) -> (lowered: String)
    ensures
        lowered@ == lowercase_text(s@),
;

/// An ASCII capital letter becomes its small letter; any other byte stays.
pub open spec fn lower_ascii(b: u8) -> u8 {
    if 0x41 <= b <= 0x5a {
        (b + 0x20) as u8
    } else {
        b
    }
}

/// Every byte case-folded by the ASCII rule.
pub open spec fn fold_ascii(bytes: Seq<u8>) -> Seq<u8> {
    Seq::new(bytes.len(), |i: int| lower_ascii(bytes[i]))
}

/// The bytes in order, spaces left out.
pub open spec fn without_spaces(bytes: Seq<u8>) -> Seq<u8>
    decreases bytes.len(),
{
    if bytes.len() == 0 {
        Seq::empty()
    } else if bytes.last() == SPACE {
        without_spaces(bytes.drop_last())
    } else {
        without_spaces(bytes.drop_last()).push(bytes.last())
    }
}

/// Key of text given as ASCII bytes: lower-cased, then spaces removed.
pub open spec fn ascii_key(bytes: Seq<u8>) -> Seq<u8> {
    without_spaces(fold_ascii(bytes))
}

/// The UTF-8 bytes of the lower-cased text. Pure ASCII text is lower-cased
/// byte by byte; any other text by `str::to_lowercase`.
pub open spec fn folded_bytes(s: Seq<char>) -> Seq<u8> {
    if is_ascii_chars(s) {
        fold_ascii(encode_utf8(s))
    } else {
        encode_utf8(lowercase_text(s))
    }
}

/// The match key of a display string or of a query: lower-case the text, remove
/// every space, and take the UTF-8 bytes of what is left.
pub open spec fn match_key_of(s: Seq<char>) -> Seq<u8> {
    without_spaces(folded_bytes(s))
}

/// The text without its space characters.
pub open spec fn without_space_chars(s: Seq<char>) -> Seq<char>
    decreases s.len(),
{
    if s.len() == 0 {
        Seq::empty()
    } else if s[0] == ' ' {
        without_space_chars(s.drop_first())
    } else {
        seq![s[0]] + without_space_chars(s.drop_first())
    }
}

/// The text that a match key is the UTF-8 form of.
pub open spec fn key_text(s: Seq<char>) -> Seq<char> {
    decode_utf8(match_key_of(s))
}

/// The text whose UTF-8 form is the given ASCII bytes.
pub open spec fn ascii_text(bytes: Seq<u8>) -> Seq<char> {
    Seq::new(bytes.len(), |i: int| bytes[i] as char)
}

proof fn lemma_without_spaces_holds_no_space(bytes: Seq<u8>)
    ensures
        without_spaces(bytes).len() <= bytes.len(),
        forall|i: int|
            0 <= i < without_spaces(bytes).len() ==> #[trigger] without_spaces(bytes)[i] != SPACE
                && bytes.contains(without_spaces(bytes)[i]),
    decreases bytes.len(),
{
    if bytes.len() > 0 {
        let front = bytes.drop_last();
        lemma_without_spaces_holds_no_space(front);
        assert forall|i: int| 0 <= i < without_spaces(bytes).len() implies #[trigger] without_spaces(
            bytes,
        )[i] != SPACE && bytes.contains(without_spaces(bytes)[i]) by {
            if i < without_spaces(front).len() {
                let b = without_spaces(front)[i];
                let j = choose|j: int| 0 <= j < front.len() && front[j] == b;
                assert(bytes[j] == b);
            } else {
                assert(bytes[bytes.len() - 1] == bytes.last());
            }
        }
    }
}

proof fn lemma_without_spaces_keeps_clean(bytes: Seq<u8>)
    requires
        forall|i: int| 0 <= i < bytes.len() ==> bytes[i] != SPACE,
    ensures
        without_spaces(bytes) == bytes,
    decreases bytes.len(),
{
    if bytes.len() > 0 {
        lemma_without_spaces_keeps_clean(bytes.drop_last());
        assert(bytes.drop_last().push(bytes.last()) =~= bytes);
    }
}

/// Removing spaces from bytes that hold none changes nothing.
pub proof fn lemma_without_spaces_idempotent(bytes: Seq<u8>)
    ensures
        without_spaces(without_spaces(bytes)) == without_spaces(bytes),
{
    lemma_without_spaces_holds_no_space(bytes);
    lemma_without_spaces_keeps_clean(without_spaces(bytes));
}

proof fn lemma_fold_then_strip_commute(bytes: Seq<u8>)
    ensures
        without_spaces(fold_ascii(bytes)) == fold_ascii(without_spaces(bytes)),
    decreases bytes.len(),
{
    if bytes.len() > 0 {
        let front = bytes.drop_last();
        lemma_fold_then_strip_commute(front);
        assert(fold_ascii(bytes).drop_last() =~= fold_ascii(front));
        if bytes.last() != SPACE {
            assert(fold_ascii(without_spaces(front).push(bytes.last())) =~= fold_ascii(
                without_spaces(front),
            ).push(lower_ascii(bytes.last())));
        }
    } else {
        assert(fold_ascii(bytes) =~= Seq::<u8>::empty());
        assert(fold_ascii(Seq::<u8>::empty()) =~= Seq::<u8>::empty());
    }
}

/// Normalization idempotence on ASCII keys: lower-casing byte by byte and
/// removing spaces, applied to its own output, returns that output.
pub proof fn lemma_ascii_key_idempotent(bytes: Seq<u8>)
    ensures
        ascii_key(ascii_key(bytes)) == ascii_key(bytes),
{
    let once = fold_ascii(bytes);
    assert(fold_ascii(once) =~= once);
    lemma_fold_then_strip_commute(once);
    lemma_without_spaces_idempotent(once);
}

/// Normalization idempotence for ASCII text: the key of an ASCII string is
/// itself the UTF-8 form of an ASCII string, and the key of that string is the
/// same key again.
pub proof fn lemma_match_key_idempotent_on_ascii(s: Seq<char>)
    requires
        is_ascii_chars(s),
    ensures
        is_ascii_chars(ascii_text(match_key_of(s))),
        encode_utf8(ascii_text(match_key_of(s))) == match_key_of(s),
        match_key_of(ascii_text(match_key_of(s))) == match_key_of(s),
{
    let bytes = encode_utf8(s);
    let key = match_key_of(s);
    let text = ascii_text(key);
    is_ascii_chars_encode_utf8(s);
    lemma_without_spaces_holds_no_space(fold_ascii(bytes));
    assert forall|i: int| 0 <= i < key.len() implies #[trigger] key[i] < 0x80 by {
        let j = choose|j: int| 0 <= j < fold_ascii(bytes).len() && fold_ascii(bytes)[j] == key[i];
        assert(bytes[j] == s[j] as u8);
    }
    assert(is_ascii_chars(text));
    is_ascii_chars_encode_utf8(text);
    assert(encode_utf8(text) =~= key);
    lemma_ascii_key_idempotent(bytes);
}

proof fn lemma_without_spaces_of_concat(front: Seq<u8>, back: Seq<u8>)
    ensures
        without_spaces(front + back) == without_spaces(front) + without_spaces(back),
    decreases back.len(),
{
    if back.len() == 0 {
        assert(front + back =~= front);
        assert(without_spaces(front) + without_spaces(back) =~= without_spaces(front));
    } else {
        lemma_without_spaces_of_concat(front, back.drop_last());
        assert((front + back).drop_last() =~= front + back.drop_last());
        assert((front + back).last() == back.last());
        if back.last() != SPACE {
            assert(without_spaces(front) + without_spaces(back.drop_last()).push(back.last())
                =~= (without_spaces(front) + without_spaces(back.drop_last())).push(back.last()));
        }
    }
}

/// In UTF-8 the byte of the space stands for the space character and is part
/// of no other character.
proof fn lemma_space_byte_is_space_char(c: char)
    ensures
        without_spaces(encode_scalar(c as u32)) == if c == ' ' {
            Seq::<u8>::empty()
        } else {
            encode_scalar(c as u32)
        },
{
    let scalar = c as u32;
    let bytes = encode_scalar(scalar);
    char_is_scalar(c);
    assert(forall|x: u8| (0x80u8 | x) != 0x20u8) by (bit_vector);
    assert(forall|x: u8| (0xC0u8 | x) != 0x20u8) by (bit_vector);
    assert(forall|x: u8| (0xE0u8 | x) != 0x20u8) by (bit_vector);
    assert(forall|x: u8| (0xF0u8 | x) != 0x20u8) by (bit_vector);
    assert(scalar <= 0x7F ==> (((scalar & 0x7F) as u8 == 0x20u8) <==> scalar == 0x20)) by (bit_vector);
    if c == ' ' {
        assert(bytes =~= seq![SPACE]);
        assert(bytes.drop_last() =~= Seq::<u8>::empty());
        assert(without_spaces(bytes.drop_last()) =~= Seq::<u8>::empty());
    } else {
        assert forall|i: int| 0 <= i < bytes.len() implies bytes[i] != SPACE by {}
        lemma_without_spaces_keeps_clean(bytes);
    }
}

/// Removing the space bytes from the UTF-8 form of a text gives the UTF-8
/// form of the text without its space characters.
proof fn lemma_without_spaces_of_text(s: Seq<char>)
    ensures
        without_spaces(encode_utf8(s)) == encode_utf8(without_space_chars(s)),
    decreases s.len(),
{
    if s.len() == 0 {
        assert(encode_utf8(s) =~= Seq::<u8>::empty());
    } else {
        let head = encode_scalar(s[0] as u32);
        let rest = s.drop_first();
        lemma_without_spaces_of_text(rest);
        lemma_without_spaces_of_concat(head, encode_utf8(rest));
        lemma_space_byte_is_space_char(s[0]);
        if s[0] == ' ' {
            assert(Seq::<u8>::empty() + encode_utf8(without_space_chars(rest))
                =~= encode_utf8(without_space_chars(rest)));
        } else {
            let kept = seq![s[0]] + without_space_chars(rest);
            assert(kept[0] == s[0]);
            assert(kept.drop_first() =~= without_space_chars(rest));
        }
    }
}

/// A match key is text: the key of any string is valid UTF-8, the UTF-8 form
/// of `key_text`.
pub proof fn lemma_match_key_is_text(s: Seq<char>)
    ensures
        valid_utf8(match_key_of(s)),
        encode_utf8(key_text(s)) == match_key_of(s),
        is_ascii_chars(s) ==> key_text(s) == ascii_text(match_key_of(s)),
        !is_ascii_chars(s) ==> key_text(s) == without_space_chars(lowercase_text(s)),
{
    if is_ascii_chars(s) {
        lemma_match_key_idempotent_on_ascii(s);
        encode_utf8_valid_utf8(ascii_text(match_key_of(s)));
        encode_utf8_decode_utf8(ascii_text(match_key_of(s)));
    } else {
        lemma_without_spaces_of_text(lowercase_text(s));
        encode_utf8_valid_utf8(without_space_chars(lowercase_text(s)));
        encode_utf8_decode_utf8(without_space_chars(lowercase_text(s)));
    }
    decode_utf8_encode_utf8(match_key_of(s));
}

/// Normalization idempotence, as far as case folding allows. The key of any
/// string, read back as text and normalized again, is the same key wherever
/// lower-casing that text changes nothing. For ASCII text it never does.
pub proof fn lemma_match_key_idempotent_where_folding_is(s: Seq<char>)
    ensures
        is_ascii_chars(s) ==> match_key_of(key_text(s)) == match_key_of(s),
        folded_bytes(key_text(s)) == encode_utf8(key_text(s)) ==> match_key_of(key_text(s))
            == match_key_of(s),
{
    lemma_match_key_is_text(s);
    if is_ascii_chars(s) {
        lemma_match_key_idempotent_on_ascii(s);
    }
    if folded_bytes(key_text(s)) == encode_utf8(key_text(s)) {
        lemma_without_spaces_idempotent(folded_bytes(s));
    }
}

fn fold_byte(b: u8) -> (folded: u8)
    ensures
        folded == lower_ascii(b),
{
    if 0x41 <= b && b <= 0x5a {
        b + 0x20
    } else {
        b
    }
}

/// Copies `bytes` without its spaces, lower-casing ASCII letters on the way
/// when `fold` is set.
fn clean_bytes(bytes: &[u8], fold: bool) -> (key: Vec<u8>)
    ensures
        key@ == without_spaces(
            if fold {
                fold_ascii(bytes@)
            } else {
                bytes@
            },
        ),
{
    let ghost source = if fold {
        fold_ascii(bytes@)
    } else {
        bytes@
    };
    let mut key: Vec<u8> = Vec::new();
    let mut i: usize = 0;
    while i < bytes.len()
        invariant
            i <= bytes.len(),
            source.len() == bytes@.len(),
            source == if fold {
                fold_ascii(bytes@)
            } else {
                bytes@
            },
            key@ == without_spaces(source.take(i as int)),
        decreases bytes.len() - i,
    {
        let b = if fold {
            fold_byte(bytes[i])
        } else {
            bytes[i]
        };
        proof {
            assert(source.take(i + 1).drop_last() =~= source.take(i as int));
            assert(source.take(i + 1).last() == b);
        }
        if b != SPACE {
            key.push(b);
        }
        i += 1;
    }
    proof {
        assert(source.take(i as int) =~= source);
    }
    key
}

/// Normalizes query text or a display string into its match key, which is
/// valid UTF-8 again.
pub fn prepare_fuzzy_target(target: &str) -> (key: Vec<u8>)
    ensures
        key@ == match_key_of(target@),
        valid_utf8(key@),
{
    proof {
        lemma_match_key_is_text(target@);
    }
    if target.is_ascii() {
        clean_bytes(target.as_bytes(), true)
    } else {
        let lowered = target.to_lowercase();
        clean_bytes(lowered.as_str().as_bytes(), false)
    }
}

/// One corpus entry: the display string and the match key derived from it.
pub struct Candidate {
    match_key: Vec<u8>,
    display: String,
}

/// What a candidate is to the ranking: its key and the text it shows.
pub struct CandidateView {
    pub match_key: Seq<u8>,
    pub display: Seq<char>,
}

impl View for Candidate {
    type V = CandidateView;

    closed spec fn view(&self) -> CandidateView {
        CandidateView { match_key: self.match_key@, display: self.display@ }
    }
}

impl Candidate {
    /// The key is the normalized display string, from creation on.
    #[verifier::type_invariant]
    spec fn key_matches_display(self) -> bool {
        self.match_key@ == match_key_of(self.display@)
    }

    /// Builds the entry for `display`, deriving its key once.
    pub fn new(display: String) -> (candidate: Candidate)
        ensures
            candidate@.display == display@,
            candidate@.match_key == match_key_of(display@),
    {
        let match_key = prepare_fuzzy_target(display.as_str());
        Candidate { match_key, display }
    }

    /// The normalized bytes that queries are scored against.
    pub fn match_key(&self) -> (key: &[u8])
        ensures
            key@ == self@.match_key,
            key@ == match_key_of(self@.display),
    {
        proof {
            use_type_invariant(self);
        }
        self.match_key.as_slice()
    }

    /// The string shown for this entry.
    pub fn display(&self) -> (text: &str)
        ensures
            text@ == self@.display,
    {
        self.display.as_str()
    }
}

/// Turns the indexed paths into the corpus: one candidate per path, in the
/// order of the paths, each with the key of its path.
pub fn prepare_paths_for_seach(paths: &[String]) -> (corpus: Vec<Candidate>)
    ensures
        corpus@.len() == paths@.len(),
        forall|i: int|
            0 <= i < paths@.len() ==> (#[trigger] corpus@[i])@.display == paths@[i]@
                && corpus@[i]@.match_key == match_key_of(paths@[i]@),
{
    let build = |path: &String| -> (candidate: Candidate)
        ensures
            candidate@.display == path@,
            candidate@.match_key == match_key_of(path@),
        { Candidate::new(path.clone()) };
    par_map(paths, build)
}

} // verus!
