//! The masking core: builds the key-unique masked record of a header
//! collection and serializes it to the object text that is handed to the
//! log sink.

use vstd::prelude::*;

use crate::config::Config;
use crate::text::chars_to_string;
use crate::text::escaped;
use crate::text::push_escaped;

verus! {

/// The fixed token that replaces the value of a sensitive header.
pub open spec fn mask_token() -> Seq<char> {
    "*****"@
}

/// The mask token as an executable string.
pub fn mask_token_text() -> (r: String)
    ensures
        r@ == mask_token(),
{
    String::from_str("*****")
}

/// The characters of each string in a list.
pub open spec fn name_views(ns: Seq<String>) -> Seq<Seq<char>> {
    ns.map_values(|s: String| s@)
}

/// The characters of each name and value in a header collection.
pub open spec fn header_views(hs: Seq<(String, String)>) -> Seq<(Seq<char>, Seq<char>)> {
    hs.map_values(|p: (String, String)| (p.0@, p.1@))
}

/// The names of a header collection, in input order.
pub open spec fn names_of(hs: Seq<(Seq<char>, Seq<char>)>) -> Seq<Seq<char>> {
    hs.map_values(|p: (Seq<char>, Seq<char>)| p.0)
}

/// What is recorded for one header: the mask token when its name is listed
/// as sensitive, the original value otherwise.
pub open spec fn masked_value(
    name: Seq<char>,
    value: Seq<char>,
    sensitive: Seq<Seq<char>>,
) -> Seq<char> {
    if sensitive.contains(name) {
        mask_token()
    } else {
        value
    }
}

/// The key-unique masked record: every header is inserted in input order,
/// so a repeated name keeps the value of its last occurrence.
pub open spec fn masked_map(
    hs: Seq<(Seq<char>, Seq<char>)>,
    sensitive: Seq<Seq<char>>,
) -> Map<Seq<char>, Seq<char>>
    decreases hs.len(),
{
    if hs.len() == 0 {
        Map::empty()
    } else {
        masked_map(hs.drop_last(), sensitive).insert(
            hs.last().0,
            masked_value(hs.last().0, hs.last().1, sensitive),
        )
    }
}

/// The distinct header names in order of first occurrence: the key order of
/// the serialized object.
pub open spec fn first_names(hs: Seq<(Seq<char>, Seq<char>)>) -> Seq<Seq<char>>
    decreases hs.len(),
{
    if hs.len() == 0 {
        Seq::empty()
    } else {
        let rest = first_names(hs.drop_last());
        if rest.contains(hs.last().0) {
            rest
        } else {
            rest.push(hs.last().0)
        }
    }
}

/// One `"name":"value"` entry of the serialized object.
pub open spec fn entry_text(name: Seq<char>, value: Seq<char>) -> Seq<char> {
    seq!['"'] + escaped(name) + seq!['"', ':', '"'] + escaped(value) + seq!['"']
}

/// The comma-separated entries of the serialized object.
pub open spec fn entries_text(es: Seq<(Seq<char>, Seq<char>)>) -> Seq<char>
    decreases es.len(),
{
    if es.len() == 0 {
        Seq::empty()
    } else if es.len() == 1 {
        entry_text(es[0].0, es[0].1)
    } else {
        entries_text(es.drop_last()) + seq![','] + entry_text(es.last().0, es.last().1)
    }
}

/// The entries of the masked record, keyed in first-occurrence order.
pub open spec fn masked_entries(
    hs: Seq<(Seq<char>, Seq<char>)>,
    sensitive: Seq<Seq<char>>,
) -> Seq<(Seq<char>, Seq<char>)> {
    first_names(hs).map_values(|n: Seq<char>| (n, masked_map(hs, sensitive)[n]))
}

/// The serialized masked record.
pub open spec fn spec_masked_text(
    hs: Seq<(Seq<char>, Seq<char>)>,
    sensitive: Seq<Seq<char>>,
) -> Seq<char> {
    seq!['{'] + entries_text(masked_entries(hs, sensitive)) + seq!['}']
}

/// Whether the name stands in the list, by exact, case-sensitive
/// comparison.
pub fn contains_name(list: &Vec<String>, name: &String) -> (r: bool)
    ensures
        r == name_views(list@).contains(name@),
{
    let mut i: usize = 0;
    while i < list.len()
        invariant
            i <= list@.len(),
            forall|j: int| 0 <= j < i ==> list@[j]@ != name@,
        decreases list@.len() - i,
    {
        if list[i].eq(name) {
            proof {
                assert(name_views(list@)[i as int] == name@);
            }
            return true;
        }
        i += 1;
    }
    proof {
        assert forall|j: int| 0 <= j < name_views(list@).len() implies name_views(list@)[j]
            != name@ by {
            assert(name_views(list@)[j] == list@[j]@);
        }
    }
    false
}

/// The position of the name in the list, if it stands there.
fn find_name(list: &Vec<String>, name: &String) -> (r: Option<usize>)
    ensures
        match r {
            Some(i) => i < list@.len() && list@[i as int]@ == name@,
            None => forall|j: int| 0 <= j < list@.len() ==> list@[j]@ != name@,
        },
{
    let mut i: usize = 0;
    while i < list.len()
        invariant
            i <= list@.len(),
            forall|j: int| 0 <= j < i ==> list@[j]@ != name@,
        decreases list@.len() - i,
    {
        if list[i].eq(name) {
            return Some(i);
        }
        i += 1;
    }
    None
}

/// Serializes the masked record of the given headers: a key-unique object
/// in which every name listed in the configuration maps to the mask token
/// and every other name to its (last) original value, keys in order of
/// first occurrence.
pub fn create_masked_text(headers: &Vec<(String, String)>, config: &Config) -> (r: String)
    ensures
        r@ == spec_masked_text(header_views(headers@), name_views(config.header@)),
{
    let ghost hv = header_views(headers@);
    let ghost sv = name_views(config.header@);
    let mut names: Vec<String> = Vec::new();
    let mut vals: Vec<String> = Vec::new();
    let mut i: usize = 0;
    while i < headers.len()
        invariant
            i <= headers@.len(),
            hv == header_views(headers@),
            sv == name_views(config.header@),
            vals@.len() == names@.len(),
            name_views(names@) == first_names(hv.take(i as int)),
            forall|j: int, k: int| 0 <= j < k < names@.len() ==> names@[j]@ != names@[k]@,
            forall|j: int|
                0 <= j < names@.len() ==> masked_map(hv.take(i as int), sv).contains_key(
                    #[trigger] names@[j]@,
                ) && masked_map(hv.take(i as int), sv)[names@[j]@] == vals@[j]@,
            forall|n: Seq<char>|
                #[trigger] masked_map(hv.take(i as int), sv).contains_key(n) ==> name_views(
                    names@,
                ).contains(n),
        decreases headers@.len() - i,
    {
        let pair = &headers[i];
        let name = &pair.0;
        proof {
            assert(hv[i as int] == (headers@[i as int].0@, headers@[i as int].1@));
        }
        let masked = contains_name(&config.header, name);
        let val: String = if masked {
            mask_token_text()
        } else {
            pair.1.clone()
        };
        let ghost pre = hv.take(i as int);
        let ghost post = hv.take(i + 1);
        proof {
            assert(post.drop_last() =~= pre);
            assert(post.last() == hv[i as int]);
            assert(val@ == masked_value(hv[i as int].0, hv[i as int].1, sv));
        }
        match find_name(&names, name) {
            Some(k) => {
                vals[k] = val;
                proof {
                    assert(name_views(names@)[k as int] == name@);
                    assert(names@[k as int]@ == name@);
                    assert(first_names(pre).contains(hv[i as int].0));
                    assert(first_names(post) == first_names(pre));
                    assert forall|j: int|
                        0 <= j < names@.len() implies masked_map(post, sv).contains_key(
                        #[trigger] names@[j]@,
                    ) && masked_map(post, sv)[names@[j]@] == vals@[j]@ by {
                        if j != k as int {
                            assert(names@[j]@ != names@[k as int]@);
                        }
                    }
                    assert forall|n: Seq<char>|
                        #[trigger] masked_map(post, sv).contains_key(n) implies name_views(
                        names@,
                    ).contains(n) by {
                        if n != hv[i as int].0 {
                            assert(masked_map(pre, sv).contains_key(n));
                        }
                    }
                }
            },
            None => {
                let ghost old_names = names@;
                let ghost old_vals = vals@;
                names.push(name.clone());
                vals.push(val);
                proof {
                    assert forall|n: Seq<char>|
                        name_views(old_names).contains(n) implies n != name@ by {
                        let jj = choose|jj: int|
                            0 <= jj < name_views(old_names).len() && name_views(old_names)[jj]
                                == n;
                        assert(old_names[jj]@ == n);
                    }
                    assert(!first_names(pre).contains(hv[i as int].0));
                    assert(first_names(post) == first_names(pre).push(hv[i as int].0));
                    assert(name_views(names@) =~= name_views(old_names).push(name@));
                    assert forall|j: int, k: int|
                        0 <= j < k < names@.len() implies names@[j]@ != names@[k]@ by {
                        if k == names@.len() - 1 {
                            assert(name_views(old_names)[j] == old_names[j]@);
                            assert(name_views(old_names).contains(names@[j]@));
                        }
                    }
                    assert forall|j: int|
                        0 <= j < names@.len() implies masked_map(post, sv).contains_key(
                        #[trigger] names@[j]@,
                    ) && masked_map(post, sv)[names@[j]@] == vals@[j]@ by {
                        if j < names@.len() - 1 {
                            assert(names@[j] == old_names[j]);
                            assert(vals@[j] == old_vals[j]);
                            assert(name_views(old_names)[j] == old_names[j]@);
                            assert(name_views(old_names).contains(names@[j]@));
                            assert(names@[j]@ != name@);
                        }
                    }
                    assert forall|n: Seq<char>|
                        #[trigger] masked_map(post, sv).contains_key(n) implies name_views(
                        names@,
                    ).contains(n) by {
                        if n == hv[i as int].0 {
                            assert(name_views(names@)[names@.len() - 1] == n);
                        } else {
                            assert(masked_map(pre, sv).contains_key(n));
                            let jj = choose|jj: int|
                                0 <= jj < name_views(old_names).len() && name_views(
                                    old_names,
                                )[jj] == n;
                            assert(name_views(names@)[jj] == n);
                        }
                    }
                }
            },
        }
        i += 1;
    }
    proof {
        assert(hv.take(headers@.len() as int) =~= hv);
    }
    let ghost es = masked_entries(hv, sv);
    proof {
        assert(es.len() == names@.len());
        assert forall|j: int| 0 <= j < names@.len() implies #[trigger] es[j] == (
            names@[j]@,
            vals@[j]@,
        ) by {
            assert(first_names(hv)[j] == name_views(names@)[j]);
            assert(name_views(names@)[j] == names@[j]@);
        }
    }
    let mut out: Vec<char> = Vec::new();
    out.push('{');
    let mut k: usize = 0;
    while k < names.len()
        invariant
            k <= names@.len(),
            vals@.len() == names@.len(),
            es == masked_entries(hv, sv),
            es.len() == names@.len(),
            forall|j: int| 0 <= j < names@.len() ==> #[trigger] es[j] == (names@[j]@, vals@[j]@),
            out@ == seq!['{'] + entries_text(es.take(k as int)),
        decreases names@.len() - k,
    {
        if k > 0 {
            out.push(',');
        }
        out.push('"');
        let nk: &String = &names[k];
        push_escaped(&mut out, nk.as_str());
        out.push('"');
        out.push(':');
        out.push('"');
        let vk: &String = &vals[k];
        push_escaped(&mut out, vk.as_str());
        out.push('"');
        proof {
            let t = es.take(k + 1);
            assert(t.drop_last() =~= es.take(k as int));
            assert(t.last() == es[k as int]);
            assert(out@ =~= seq!['{'] + entries_text(t));
        }
        k += 1;
    }
    out.push('}');
    proof {
        assert(es.take(names@.len() as int) =~= es);
        assert(out@ =~= spec_masked_text(hv, sv));
    }
    chars_to_string(&out)
}

/// The value of the last occurrence of a name in a header collection.
pub open spec fn last_value(hs: Seq<(Seq<char>, Seq<char>)>, name: Seq<char>) -> Seq<char>
    recommends
        names_of(hs).contains(name),
    decreases hs.len(),
{
    if hs.len() == 0 {
        Seq::empty()
    } else if hs.last().0 == name {
        hs.last().1
    } else {
        last_value(hs.drop_last(), name)
    }
}

/// The masked record holds exactly one entry per distinct header name; a
/// name that exactly (case-sensitively) matches a sensitive entry is mapped
/// to the mask token, and every other name to the value of its last
/// occurrence in the collection.
pub proof fn lemma_masked_record_correct(hs: Seq<(Seq<char>, Seq<char>)>, sensitive: Seq<Seq<char>>)
    ensures
        forall|name: Seq<char>|
            #[trigger] masked_map(hs, sensitive).contains_key(name) <==> names_of(hs).contains(
                name,
            ),
        forall|name: Seq<char>|
            #[trigger] names_of(hs).contains(name) && sensitive.contains(name) ==> masked_map(
                hs,
                sensitive,
            )[name] == mask_token(),
        forall|name: Seq<char>|
            #[trigger] names_of(hs).contains(name) && !sensitive.contains(name) ==> masked_map(
                hs,
                sensitive,
            )[name] == last_value(hs, name),
    decreases hs.len(),
{
    if hs.len() == 0 {
        assert(names_of(hs).len() == 0);
    } else {
        let dl = hs.drop_last();
        let l = hs.last();
        lemma_masked_record_correct(dl, sensitive);
        assert(names_of(hs) =~= names_of(dl).push(l.0));
        assert forall|name: Seq<char>| #[trigger]
            names_of(hs).contains(name) implies (name == l.0 || names_of(dl).contains(name)) by {
            let i = choose|i: int| 0 <= i < names_of(hs).len() && names_of(hs)[i] == name;
            if i < names_of(dl).len() {
                assert(names_of(dl)[i] == name);
            }
        }
        assert forall|name: Seq<char>|
            name == l.0 || names_of(dl).contains(name) implies #[trigger] names_of(hs).contains(
            name,
        ) by {
            if name == l.0 {
                assert(names_of(hs)[names_of(hs).len() - 1] == name);
            } else {
                let i = choose|i: int| 0 <= i < names_of(dl).len() && names_of(dl)[i] == name;
                assert(names_of(hs)[i] == name);
            }
        }
        assert(masked_map(hs, sensitive) == masked_map(dl, sensitive).insert(
            l.0,
            masked_value(l.0, l.1, sensitive),
        ));
    }
}

/// The keys of the serialized object are the distinct names of the input
/// collection, each exactly once.
pub proof fn lemma_output_keys(hs: Seq<(Seq<char>, Seq<char>)>)
    ensures
        first_names(hs).no_duplicates(),
        forall|name: Seq<char>|
            #[trigger] first_names(hs).contains(name) <==> names_of(hs).contains(name),
    decreases hs.len(),
{
    if hs.len() == 0 {
        assert(names_of(hs).len() == 0);
    } else {
        let dl = hs.drop_last();
        let l = hs.last();
        lemma_output_keys(dl);
        assert(names_of(hs) =~= names_of(dl).push(l.0));
        assert forall|name: Seq<char>| #[trigger]
            names_of(hs).contains(name) implies (name == l.0 || names_of(dl).contains(name)) by {
            let i = choose|i: int| 0 <= i < names_of(hs).len() && names_of(hs)[i] == name;
            if i < names_of(dl).len() {
                assert(names_of(dl)[i] == name);
            }
        }
        assert forall|name: Seq<char>|
            name == l.0 || names_of(dl).contains(name) implies #[trigger] names_of(hs).contains(
            name,
        ) by {
            if name == l.0 {
                assert(names_of(hs)[names_of(hs).len() - 1] == name);
            } else {
                let i = choose|i: int| 0 <= i < names_of(dl).len() && names_of(dl)[i] == name;
                assert(names_of(hs)[i] == name);
            }
        }
        let fdl = first_names(dl);
        if fdl.contains(l.0) {
            assert(first_names(hs) == fdl);
        } else {
            assert(first_names(hs) == fdl.push(l.0));
            assert forall|name: Seq<char>| #[trigger]
                first_names(hs).contains(name) implies (name == l.0 || fdl.contains(name)) by {
                let i = choose|i: int|
                    0 <= i < first_names(hs).len() && first_names(hs)[i] == name;
                if i < fdl.len() {
                    assert(fdl[i] == name);
                }
            }
            assert forall|name: Seq<char>|
                name == l.0 || fdl.contains(name) implies #[trigger] first_names(hs).contains(
                name,
            ) by {
                if name == l.0 {
                    assert(first_names(hs)[first_names(hs).len() - 1] == name);
                } else {
                    let i = choose|i: int| 0 <= i < fdl.len() && fdl[i] == name;
                    assert(first_names(hs)[i] == name);
                }
            }
            assert forall|i: int, j: int|
                0 <= i < j < first_names(hs).len() implies first_names(hs)[i] != first_names(
                hs,
            )[j] by {
                if j == first_names(hs).len() - 1 {
                    assert(fdl[i] == first_names(hs)[i]);
                    assert(fdl.contains(first_names(hs)[i]));
                }
            }
        }
    }
}

/// Masking and serialization is a pure function of the header collection
/// and the sensitive names: two invocations on identical inputs produce
/// identical output text.
pub proof fn lemma_masking_deterministic(
    h1: Seq<(Seq<char>, Seq<char>)>,
    s1: Seq<Seq<char>>,
    h2: Seq<(Seq<char>, Seq<char>)>,
    s2: Seq<Seq<char>>,
)
    requires
        h1 == h2,
        s1 == s2,
    ensures
        spec_masked_text(h1, s1) == spec_masked_text(h2, s2),
{
}

/// The single log line of one invocation: the fixed informational message
/// for an empty header collection, else the serialized masked record.
pub fn header_log(headers: &Vec<(String, String)>, config: &Config) -> (r: String)
    ensures
        headers@.len() == 0 ==> r@ == "No headers to log."@,
        headers@.len() > 0 ==> r@ == spec_masked_text(
            header_views(headers@),
            name_views(config.header@),
        ),
{
    if headers.len() == 0 {
        String::from_str("No headers to log.")
    } else {
        create_masked_text(headers, config)
    }
}

} // verus!
