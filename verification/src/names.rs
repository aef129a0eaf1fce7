//! Patch names and the files that hold patches.
use vstd::prelude::*;
use vstd::string::StringExecFns;

verus! {

/// How many characters a patch name may have.
pub const MAX_NAME: usize = 64;

/// [`str`]'s equality: two strings are equal when they have the same
/// characters.
pub assume_specification[ <str as PartialEq>::eq ](a: &str, b: &str) -> (r: bool)
    ensures
        r == (a@ == b@),
;

/// [`String::push`]: the character is added at the end.
pub assume_specification[ String::push ](s: &mut String, ch: char)
    ensures
        final(s)@ == old(s)@.push(ch),
;

/// Whether [`char::is_alphanumeric`] counts a character as a letter or a
/// digit of some script.
pub uninterp spec fn alphanumeric(c: char) -> bool;

/// The letters and digits of ASCII.
pub open spec fn ascii_alphanumeric(c: char) -> bool {
    'a' <= c <= 'z' || 'A' <= c <= 'Z' || '0' <= c <= '9'
}

/// [`char::is_alphanumeric`]: letters and digits as Unicode has them. Among
/// the ASCII characters these are the twenty-six letters in both cases and
/// the ten digits.
pub assume_specification[ char::is_alphanumeric ](c: char) -> (r: bool)
    ensures
        r == alphanumeric(c),
        (c as u32) < 128 ==> r == ascii_alphanumeric(c),
;

/// What [`str::to_lowercase`] makes of a text.
pub uninterp spec fn lowercase(s: Seq<char>) -> Seq<char>;

/// An ASCII character in lower case.
pub open spec fn ascii_lower(c: char) -> char {
    if 'A' <= c <= 'Z' {
        (c as u32 + 32) as char
    } else {
        c
    }
}

/// A text of ASCII characters in lower case.
pub open spec fn ascii_lowercase(s: Seq<char>) -> Seq<char> {
    s.map_values(|c: char| ascii_lower(c))
}

/// [`str::to_lowercase`]: the text in lower case, as Unicode has it. Of an ASCII
/// text the twenty-six capital letters change, and nothing else.
pub assume_specification[ str::to_lowercase ](s: &str) -> (r: String)
    ensures
        r@ == lowercase(s@),
        vstd::utf8::is_ascii_chars(s@) ==> r@ == ascii_lowercase(s@),
;

/// Which characters of a text are letters or digits.
pub open spec fn letters_of(name: Seq<char>) -> Seq<bool> {
    name.map_values(|c: char| alphanumeric(c))
}

/// Which characters of a text are letters or digits of ASCII.
pub open spec fn ascii_letters_of(name: Seq<char>) -> Seq<bool> {
    name.map_values(|c: char| ascii_alphanumeric(c))
}

/// Whether a patch name may be written with a character; `letter` says whether
/// it is a letter or digit.
pub open spec fn allowed(c: char, letter: bool) -> bool {
    letter || c == '-' || c == '_' || c == ' '
}

/// A space becomes an underscore.
pub open spec fn unspaced(c: char) -> char {
    if c == ' ' {
        '_'
    } else {
        c
    }
}

/// The allowed characters of a text, with underscores for spaces.
pub open spec fn kept(name: Seq<char>, letters: Seq<bool>) -> Seq<char>
    decreases name.len(),
{
    if name.len() == 0 {
        name
    } else {
        let rest = kept(name.drop_last(), letters.drop_last());
        if allowed(name.last(), letters.last()) {
            rest.push(unspaced(name.last()))
        } else {
            rest
        }
    }
}

/// A patch name made safe, by which of its characters are letters or digits:
/// only allowed characters, underscores for spaces, and not too long.
pub open spec fn sanitized_by(name: Seq<char>, letters: Seq<bool>) -> Seq<char> {
    let s = kept(name, letters);
    if s.len() <= MAX_NAME {
        s
    } else {
        s.take(MAX_NAME as int)
    }
}

/// A patch name made safe.
pub open spec fn sanitized(name: Seq<char>) -> Seq<char> {
    sanitized_by(name, letters_of(name))
}

/// Whether a character can do no harm in a file name: if it is an ASCII
/// character, it is a letter, a digit, a hyphen or an underscore.
pub open spec fn harmless(c: char) -> bool {
    (c as u32) < 128 ==> ascii_alphanumeric(c) || c == '-' || c == '_'
}

/// The characters of a text.
pub(crate) fn chars_of(s: &str) -> (r: Vec<char>)
    ensures
        r@ == s@,
{
    let mut v: Vec<char> = Vec::new();
    for c in it: s.chars()
        invariant
            it.seq() == s@,
            v@ == s@.take(it.index()),
    {
        assert(s@.take(it.index() + 1) =~= s@.take(it.index()).push(c));
        v.push(c);
    }
    assert(s@.take(s@.len() as int) =~= s@);
    v
}

/// A text made of characters.
fn text_of(v: &Vec<char>, n: usize) -> (r: String)
    requires
        n <= v@.len(),
    ensures
        r@ == v@.take(n as int),
{
    let mut s = String::new();
    let mut i: usize = 0;
    assert(v@.take(0) =~= Seq::<char>::empty());
    while i < n
        invariant
            i <= n <= v@.len(),
            s@ == v@.take(i as int),
        decreases n - i,
    {
        assert(v@.take(i + 1) =~= v@.take(i as int).push(v@[i as int]));
        s.push(v[i]);
        i = i + 1;
    }
    s
}

/// Two texts, one after the other.
pub(crate) fn joined(a: &str, b: &str) -> (r: String)
    ensures
        r@ == a@ + b@,
{
    let mut s = a.to_owned();
    s.append(b);
    s
}

/// Makes a patch name safe; `letters` says which of its characters are letters
/// or digits.
pub fn sanitize_by(name: &Vec<char>, letters: &Vec<bool>) -> (r: String)
    requires
        name@.len() == letters@.len(),
    ensures
        r@ == sanitized_by(name@, letters@),
{
    let mut safe: Vec<char> = Vec::new();
    let mut i: usize = 0;
    while i < name.len()
        invariant
            i <= name@.len() == letters@.len(),
            safe@ == kept(name@.take(i as int), letters@.take(i as int)),
        decreases name.len() - i,
    {
        let c = name[i];
        assert(name@.take(i + 1).drop_last() =~= name@.take(i as int));
        assert(letters@.take(i + 1).drop_last() =~= letters@.take(i as int));
        if letters[i] || c == '-' || c == '_' || c == ' ' {
            if c == ' ' {
                safe.push('_');
            } else {
                safe.push(c);
            }
        }
        i = i + 1;
    }
    assert(name@.take(i as int) =~= name@);
    assert(letters@.take(i as int) =~= letters@);
    let n: usize = if safe.len() <= MAX_NAME {
        safe.len()
    } else {
        MAX_NAME
    };
    assert(safe@.take(safe@.len() as int) =~= safe@);
    text_of(&safe, n)
}

/// Makes a patch name safe to use as a file name.
pub fn sanitize(name: &str) -> (r: String)
    ensures
        r@ == sanitized(name@),
        vstd::utf8::is_ascii_chars(name@) ==> r@ == sanitized_by(
            name@,
            ascii_letters_of(name@),
        ),
        r@.len() <= MAX_NAME,
        forall|i: int| 0 <= i < r@.len() ==> harmless(#[trigger] r@[i]),
{
    let chars = chars_of(name);
    let mut letters: Vec<bool> = Vec::new();
    let mut i: usize = 0;
    while i < chars.len()
        invariant
            i <= chars@.len(),
            letters@ =~= letters_of(chars@.take(i as int)),
            forall|k: int|
                0 <= k < i && (#[trigger] chars@[k] as u32) < 128 ==> letters@[k]
                    == ascii_alphanumeric(chars@[k]),
        decreases chars.len() - i,
    {
        letters.push(chars[i].is_alphanumeric());
        i = i + 1;
    }
    proof {
        assert(chars@.take(i as int) =~= chars@);
        if vstd::utf8::is_ascii_chars(name@) {
            assert(letters@ =~= ascii_letters_of(name@));
        }
        lemma_kept_is_harmless(chars@, letters@);
    }
    sanitize_by(&chars, &letters)
}

proof fn lemma_kept_is_harmless(name: Seq<char>, letters: Seq<bool>)
    requires
        name.len() == letters.len(),
        forall|k: int|
            0 <= k < name.len() && (#[trigger] name[k] as u32) < 128 ==> letters[k]
                == ascii_alphanumeric(name[k]),
    ensures
        forall|i: int| 0 <= i < kept(name, letters).len() ==> harmless(
            #[trigger] kept(name, letters)[i],
        ),
    decreases name.len(),
{
    if name.len() > 0 {
        let n = name.drop_last();
        let l = letters.drop_last();
        assert forall|k: int| 0 <= k < n.len() && (#[trigger] n[k] as u32) < 128 implies l[k]
            == ascii_alphanumeric(n[k]) by {
            assert(n[k] == name[k]);
        }
        lemma_kept_is_harmless(n, l);
        assert((name[name.len() - 1] as u32) < 128 ==> letters.last() == ascii_alphanumeric(
            name.last(),
        ));
        let rest = kept(n, l);
        let all = kept(name, letters);
        assert forall|i: int| 0 <= i < all.len() implies harmless(#[trigger] all[i]) by {
            if i < rest.len() {
                assert(all[i] == rest[i]);
            }
        }
    }
}

/// The end of a patch file's name.
pub open spec fn extension() -> Seq<char> {
    seq!['.', 'j', 's', 'o', 'n']
}

/// The name of the file that holds a patch.
pub open spec fn patch_file(name: Seq<char>) -> Seq<char> {
    name + extension()
}

/// The name of the patch that a file holds, if it holds one.
pub open spec fn patch_stem(file: Seq<char>) -> Option<Seq<char>> {
    let n = file.len() - 5;
    if n > 0 && file.skip(n) == extension() {
        Some(file.take(n))
    } else {
        None
    }
}

/// Whether a file's name is one that a safe patch name gives: no character
/// before the end can do harm, so that it names a file in the directory of
/// patches and nowhere else.
pub open spec fn safe_file(file: Seq<char>) -> bool {
    &&& file.len() >= 5
    &&& file.skip(file.len() - 5) == extension()
    &&& forall|i: int| 0 <= i < file.len() - 5 ==> harmless(#[trigger] file[i])
}

pub(crate) proof fn lemma_safe_file(name: Seq<char>)
    requires
        forall|i: int| 0 <= i < name.len() ==> harmless(#[trigger] name[i]),
    ensures
        safe_file(patch_file(name)),
{
    let file = patch_file(name);
    assert(file.skip(file.len() - 5) =~= extension());
    assert forall|i: int| 0 <= i < file.len() - 5 implies harmless(#[trigger] file[i]) by {
        assert(file[i] == name[i]);
    }
}

/// The name of the file that holds a patch.
pub fn file_name(name: &str) -> (r: String)
    ensures
        r@ == patch_file(name@),
{
    proof {
        reveal_strlit(".json");
        assert(".json"@ =~= extension());
    }
    joined(name, ".json")
}

/// The name of the patch that a file holds, if it holds one.
pub fn stem(file: &str) -> (r: Option<String>)
    ensures
        match r {
            Some(s) => patch_stem(file@) == Some(s@),
            None => patch_stem(file@) is None,
        },
{
    let v = chars_of(file);
    if v.len() <= 5 {
        return None;
    }
    let n: usize = v.len() - 5;
    if v[n] == '.' && v[n + 1] == 'j' && v[n + 2] == 's' && v[n + 3] == 'o' && v[n + 4] == 'n' {
        assert(file@.skip(n as int) =~= extension());
        Some(text_of(&v, n))
    } else {
        proof {
            let tail = file@.skip(n as int);
            assert(tail[0] == v@[n as int] && tail[1] == v@[n + 1] && tail[2] == v@[n + 2]
                && tail[3] == v@[n + 3] && tail[4] == v@[n + 4]);
            assert(tail != extension());
        }
        None
    }
}

/// A patch that is stored under a safe name is found again under that name.
pub proof fn lemma_stored_patch_is_listed(name: Seq<char>)
    requires
        sanitized(name).len() > 0,
    ensures
        patch_stem(patch_file(sanitized(name))) == Some(sanitized(name)),
{
    let safe = sanitized(name);
    let file = patch_file(safe);
    assert(file.skip(file.len() - 5) =~= extension());
    assert(file.take(file.len() - 5) =~= safe);
}

/// A safe name is left as it is.
pub proof fn lemma_sanitized_twice(name: Seq<char>)
    ensures
        sanitized(sanitized(name)) == sanitized(name),
{
    let safe = sanitized(name);
    lemma_kept_is_allowed(name, letters_of(name));
    assert forall|i: int| 0 <= i < safe.len() implies safe[i] != ' ' && allowed(
        #[trigger] safe[i],
        alphanumeric(safe[i]),
    ) by {
        assert(safe[i] == kept(name, letters_of(name))[i]);
    }
    lemma_kept_whole(safe);
}

proof fn lemma_kept_is_allowed(name: Seq<char>, letters: Seq<bool>)
    requires
        letters == letters_of(name),
    ensures
        forall|i: int|
            0 <= i < kept(name, letters).len() ==> kept(name, letters)[i] != ' ' && allowed(
                #[trigger] kept(name, letters)[i],
                alphanumeric(kept(name, letters)[i]),
            ),
    decreases name.len(),
{
    if name.len() > 0 {
        assert(letters.drop_last() =~= letters_of(name.drop_last()));
        lemma_kept_is_allowed(name.drop_last(), letters.drop_last());
        let rest = kept(name.drop_last(), letters.drop_last());
        let all = kept(name, letters);
        assert forall|i: int| 0 <= i < all.len() implies all[i] != ' ' && allowed(
            #[trigger] all[i],
            alphanumeric(all[i]),
        ) by {
            if i < rest.len() {
                assert(all[i] == rest[i]);
            }
        }
    }
}

proof fn lemma_kept_whole(s: Seq<char>)
    requires
        forall|i: int|
            0 <= i < s.len() ==> s[i] != ' ' && allowed(#[trigger] s[i], alphanumeric(s[i])),
    ensures
        kept(s, letters_of(s)) == s,
    decreases s.len(),
{
    if s.len() > 0 {
        assert(letters_of(s).drop_last() =~= letters_of(s.drop_last()));
        lemma_kept_whole(s.drop_last());
        assert(allowed(s[s.len() - 1], alphanumeric(s[s.len() - 1])));
        assert(s.drop_last().push(s.last()) =~= s);
    }
}

/// A name is made safe character by character: a letter, a digit, a hyphen or an
/// underscore is kept, a space becomes an underscore, anything else is left out,
/// and after 64 characters nothing is added any more.
pub proof fn lemma_sanitized_grows(name: Seq<char>, c: char)
    ensures
        sanitized(Seq::empty()) == Seq::<char>::empty(),
        ({
            let safe = sanitized(name);
            let next = sanitized(name.push(c));
            &&& safe.len() <= 64
            &&& safe.len() == 64 ==> next == safe
            &&& safe.len() < 64 ==> {
                &&& c == ' ' ==> next == safe.push('_')
                &&& c != ' ' && (alphanumeric(c) || c == '-' || c == '_') ==> next == safe.push(c)
                &&& c != ' ' && !alphanumeric(c) && c != '-' && c != '_' ==> next == safe
            }
        }),
{
    assert(letters_of(name.push(c)) =~= letters_of(name).push(alphanumeric(c)));
    lemma_sanitized_by_grows(name, letters_of(name), c, alphanumeric(c));
}

/// The same where it is told which characters are letters or digits.
pub proof fn lemma_sanitized_by_grows(name: Seq<char>, letters: Seq<bool>, c: char, letter: bool)
    requires
        name.len() == letters.len(),
    ensures
        sanitized_by(Seq::empty(), Seq::empty()) == Seq::<char>::empty(),
        ({
            let safe = sanitized_by(name, letters);
            let next = sanitized_by(name.push(c), letters.push(letter));
            &&& safe.len() <= 64
            &&& safe.len() == 64 ==> next == safe
            &&& safe.len() < 64 ==> {
                &&& c == ' ' ==> next == safe.push('_')
                &&& c != ' ' && (letter || c == '-' || c == '_') ==> next == safe.push(c)
                &&& c != ' ' && !letter && c != '-' && c != '_' ==> next == safe
            }
        }),
{
    assert(name.push(c).drop_last() =~= name);
    assert(letters.push(letter).drop_last() =~= letters);
    let s = kept(name, letters);
    let t = kept(name.push(c), letters.push(letter));
    if s.len() >= 64 {
        assert(s.take(64) =~= sanitized_by(name, letters));
        assert(t.take(64) =~= s.take(64));
        assert(s.len() == 64 ==> s.take(64) =~= s);
        assert(t.len() == 64 ==> t.take(64) =~= t);
    }
}

/// Letters and digits are told one by one; those of ASCII are the twenty-six
/// letters in both cases and the ten digits.
pub proof fn lemma_letters(name: Seq<char>, i: int)
    requires
        0 <= i < name.len(),
    ensures
        letters_of(name).len() == name.len(),
        letters_of(name)[i] == alphanumeric(name[i]),
        ascii_letters_of(name).len() == name.len(),
        ascii_letters_of(name)[i] == (97 <= name[i] as int <= 122 || 65 <= name[i] as int <= 90
            || 48 <= name[i] as int <= 57),
{
}

/// A character that can do no harm is none of those by which a path leaves a
/// directory or a name gets an extension.
pub proof fn lemma_harmless(c: char)
    requires
        harmless(c),
    ensures
        c != '/',
        c != '\\',
        c != '.',
        c != ':',
        c != '\0',
        c != ' ',
{
}

/// A patch is in the file that is called after it, with `.json` at the end; and
/// only a file that has something before that end holds a patch.
pub proof fn lemma_patch_files(name: Seq<char>, file: Seq<char>)
    ensures
        patch_file(name) == name + ".json"@,
        name.len() > 0 ==> patch_stem(name + ".json"@) == Some(name),
        patch_stem(file) is Some ==> patch_stem(file)->0.len() > 0 && file == patch_stem(file)->0
            + ".json"@,
{
    reveal_strlit(".json");
    assert(".json"@ =~= extension());
    let own = name + ".json"@;
    assert(own.skip(own.len() - 5) =~= extension());
    assert(own.take(own.len() - 5) =~= name);
    if patch_stem(file) is Some {
        let n = file.len() - 5;
        assert(file =~= file.take(n) + file.skip(n));
    }
}

/// In lower case the capitals of ASCII lie 32 further on, and all else stays.
pub proof fn lemma_ascii_lowercase(s: Seq<char>, i: int)
    requires
        0 <= i < s.len(),
    ensures
        ascii_lowercase(s).len() == s.len(),
        65 <= s[i] as int <= 90 ==> ascii_lowercase(s)[i] as int == s[i] as int + 32,
        !(65 <= s[i] as int <= 90) ==> ascii_lowercase(s)[i] == s[i],
{
}

} // verus!
