use vstd::prelude::*;

verus! {

/// The text of an optional name, as a sequence of characters.
pub open spec fn name_view(name: Option<&str>) -> Option<Seq<char>> {
    match name {
        Some(s) => Some(s@),
        None => None,
    }
}

/// A hidden name is one that begins with a period.  A name that is not
/// valid text (`None`) is never hidden.
pub open spec fn is_hidden_name(name: Option<Seq<char>>) -> bool {
    match name {
        Some(s) => s.len() > 0 && s[0] == '.',
        None => false,
    }
}

/// Whether an entry name is hidden.
pub fn is_hidden(name: Option<&str>) -> (r: bool)
    ensures
        r == is_hidden_name(name_view(name)),
{
    match name {
        Some(s) => {
            if s.unicode_len() == 0 {
                false
            } else {
                s.get_char(0) == '.'
            }
        },
        None => false,
    }
}

/// Index of the last period in `s`, or -1 when it holds none.
pub open spec fn last_dot(s: Seq<char>) -> int
    decreases s.len(),
{
    if s.len() == 0 {
        -1
    } else if s.last() == '.' {
        s.len() - 1
    } else {
        last_dot(s.drop_last())
    }
}

/// The extension of a file name: the text after its last period, and none
/// when the name holds no period.
pub open spec fn extension_of(name: Seq<char>) -> Option<Seq<char>> {
    if last_dot(name) < 0 {
        None
    } else {
        Some(name.subrange(last_dot(name) + 1, name.len() as int))
    }
}

/// `last_dot` is the position of a period, with none after it.
pub proof fn lemma_last_dot(s: Seq<char>)
    ensures
        -1 <= last_dot(s) < s.len(),
        last_dot(s) >= 0 ==> s[last_dot(s)] == '.',
        forall|k: int| last_dot(s) < k < s.len() ==> s[k] != '.',
    decreases s.len(),
{
    if s.len() > 0 && s.last() != '.' {
        lemma_last_dot(s.drop_last());
        assert forall|k: int| last_dot(s) < k < s.len() implies s[k] != '.' by {
            if k < s.len() - 1 {
                assert(s.drop_last()[k] == s[k]);
            }
        }
    }
}

/// The part of a file name from its last period on (the period and the
/// extension), when the name holds a period.
pub fn dotted_extension(name: &str) -> (r: Option<&str>)
    ensures
        r is Some <==> extension_of(name@) is Some,
        r is Some ==> r->0@ == seq!['.'] + extension_of(name@)->0,
{
    let n = name.unicode_len();
    let mut last: Option<usize> = None;
    let mut i: usize = 0;
    while i < n
        invariant
            n == name@.len(),
            i <= n,
            last_dot(name@.subrange(0, i as int)) == match last {
                Some(k) => k as int,
                None => -1,
            },
            last matches Some(k) ==> k < i,
        decreases n - i,
    {
        let c = name.get_char(i);
        proof {
            let t = name@.subrange(0, i + 1);
            assert(t.drop_last() =~= name@.subrange(0, i as int));
        }
        if c == '.' {
            last = Some(i);
        }
        i = i + 1;
    }
    assert(name@.subrange(0, n as int) =~= name@);
    match last {
        Some(k) => {
            proof {
                lemma_last_dot(name@);
            }
            let r = name.substring_char(k, n);
            assert(r@ =~= seq!['.'] + extension_of(name@)->0);
            Some(r)
        },
        None => None,
    }
}

/// The texts of a list of strings.
pub open spec fn texts(v: Seq<String>) -> Seq<Seq<char>> {
    v.map_values(|s: String| s@)
}

/// The extension filter: an empty filter lets every file through; otherwise
/// a file passes when it has an extension and the filter holds that
/// extension with a period in front.
pub open spec fn passes_filter(name: Option<Seq<char>>, exts: Seq<Seq<char>>) -> bool {
    exts.len() == 0 || {
        &&& name is Some
        &&& extension_of(name->0) is Some
        &&& exts.contains(seq!['.'] + extension_of(name->0)->0)
    }
}

/// Whether a file of this name passes the extension filter.
pub fn matches_extensions(name: Option<&str>, extensions: &[String]) -> (r: bool)
    ensures
        r == passes_filter(name_view(name), texts(extensions@)),
{
    if extensions.len() == 0 {
        return true;
    }
    let dotted = match name {
        Some(s) => match dotted_extension(s) {
            Some(d) => d.to_owned(),
            None => return false,
        },
        None => return false,
    };
    assert(name_view(name) is Some && extension_of(name_view(name)->0) is Some);
    assert(dotted@ == seq!['.'] + extension_of(name_view(name)->0)->0);
    let ghost exts = texts(extensions@);
    let mut k: usize = 0;
    while k < extensions.len()
        invariant
            k <= extensions.len(),
            exts == texts(extensions@),
            extensions@.len() > 0,
            name_view(name) is Some,
            extension_of(name_view(name)->0) is Some,
            dotted@ == seq!['.'] + extension_of(name_view(name)->0)->0,
            forall|m: int| 0 <= m < k ==> exts[m] != dotted@,
        decreases extensions.len() - k,
    {
        if extensions[k] == dotted {
            assert(exts.len() == extensions@.len());
            assert(exts[k as int] == dotted@);
            assert(exts.contains(dotted@));
            return true;
        }
        k = k + 1;
    }
    assert(!exts.contains(dotted@));
    false
}

} // verus!
