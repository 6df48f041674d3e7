//! The torrent descriptor: everything the swarm needs from the metainfo
//! file — piece length, per-piece digests, file layout and info-hash —
//! extracted once and shared read-only afterwards.

use vstd::prelude::*;

use crate::bencode::{
    dict_find, dict_lookup, pairs_view, items_view, item_view, spec_parse_seq, Item, ItemV,
};
use crate::hash::split_hashes;
use crate::msg::copy_range;
use crate::tracker::{find_info, get_info_hash};

verus! {

/// One payload file: where it lives below the working directory, and how
/// many bytes of the payload it carries.
pub struct FileSize {
    pub path: Vec<Vec<u8>>,
    pub len: usize,
}

/// The mathematical form of one payload file.
#[verifier::ext_equal]
pub ghost struct FileV {
    pub path: Seq<Seq<u8>>,
    pub len: int,
}

/// The views of a list of payload files.
pub open spec fn files_view(l: Seq<FileSize>) -> Seq<FileV> {
    l.map_values(
        |f: FileSize| FileV { path: f.path@.map_values(|c: Vec<u8>| c@), len: f.len as int },
    )
}

pub open spec fn key_length() -> Seq<u8> {
    seq![108u8, 101u8, 110u8, 103u8, 116u8, 104u8]
}

pub open spec fn key_name() -> Seq<u8> {
    seq![110u8, 97u8, 109u8, 101u8]
}

pub open spec fn key_files() -> Seq<u8> {
    seq![102u8, 105u8, 108u8, 101u8, 115u8]
}

pub open spec fn key_path() -> Seq<u8> {
    seq![112u8, 97u8, 116u8, 104u8]
}

pub open spec fn key_info() -> Seq<u8> {
    seq![105u8, 110u8, 102u8, 111u8]
}

pub open spec fn key_piece_length() -> Seq<u8> {
    seq![112u8, 105u8, 101u8, 99u8, 101u8, 32u8, 108u8, 101u8, 110u8, 103u8, 116u8, 104u8]
}

pub open spec fn key_pieces() -> Seq<u8> {
    seq![112u8, 105u8, 101u8, 99u8, 101u8, 115u8]
}

/// The key `length` as bytes.
pub fn key_length_vec() -> (r: Vec<u8>)
    ensures
        r@ == key_length(),
{
    let mut r: Vec<u8> = Vec::new();
    r.push(108);
    r.push(101);
    r.push(110);
    r.push(103);
    r.push(116);
    r.push(104);
    proof {
        assert(r@ =~= key_length());
    }
    r
}

/// The key `name` as bytes.
pub fn key_name_vec() -> (r: Vec<u8>)
    ensures
        r@ == key_name(),
{
    let mut r: Vec<u8> = Vec::new();
    r.push(110);
    r.push(97);
    r.push(109);
    r.push(101);
    proof {
        assert(r@ =~= key_name());
    }
    r
}

/// The key `files` as bytes.
pub fn key_files_vec() -> (r: Vec<u8>)
    ensures
        r@ == key_files(),
{
    let mut r: Vec<u8> = Vec::new();
    r.push(102);
    r.push(105);
    r.push(108);
    r.push(101);
    r.push(115);
    proof {
        assert(r@ =~= key_files());
    }
    r
}

/// The key `path` as bytes.
pub fn key_path_vec() -> (r: Vec<u8>)
    ensures
        r@ == key_path(),
{
    let mut r: Vec<u8> = Vec::new();
    r.push(112);
    r.push(97);
    r.push(116);
    r.push(104);
    proof {
        assert(r@ =~= key_path());
    }
    r
}

/// The key `info` as bytes.
pub fn key_info_vec() -> (r: Vec<u8>)
    ensures
        r@ == key_info(),
{
    let mut r: Vec<u8> = Vec::new();
    r.push(105);
    r.push(110);
    r.push(102);
    r.push(111);
    proof {
        assert(r@ =~= key_info());
    }
    r
}

/// The key `piece length` as bytes.
pub fn key_piece_length_vec() -> (r: Vec<u8>)
    ensures
        r@ == key_piece_length(),
{
    let mut r: Vec<u8> = Vec::new();
    r.push(112);
    r.push(105);
    r.push(101);
    r.push(99);
    r.push(101);
    r.push(32);
    r.push(108);
    r.push(101);
    r.push(110);
    r.push(103);
    r.push(116);
    r.push(104);
    proof {
        assert(r@ =~= key_piece_length());
    }
    r
}

/// The key `pieces` as bytes.
pub fn key_pieces_vec() -> (r: Vec<u8>)
    ensures
        r@ == key_pieces(),
{
    let mut r: Vec<u8> = Vec::new();
    r.push(112);
    r.push(105);
    r.push(101);
    r.push(99);
    r.push(101);
    r.push(115);
    proof {
        assert(r@ =~= key_pieces());
    }
    r
}

pub open spec fn key_announce() -> Seq<u8> {
    seq![97u8, 110u8, 110u8, 111u8, 117u8, 110u8, 99u8, 101u8]
}

pub open spec fn key_announce_list() -> Seq<u8> {
    seq![
        97u8, 110u8, 110u8, 111u8, 117u8, 110u8, 99u8, 101u8, 45u8, 108u8, 105u8, 115u8,
        116u8,
    ]
}

/// The key `announce` as bytes.
pub fn key_announce_vec() -> (r: Vec<u8>)
    ensures
        r@ == key_announce(),
{
    let mut r: Vec<u8> = Vec::new();
    r.push(97);
    r.push(110);
    r.push(110);
    r.push(111);
    r.push(117);
    r.push(110);
    r.push(99);
    r.push(101);
    proof {
        assert(r@ =~= key_announce());
    }
    r
}

/// The key `announce-list` as bytes.
pub fn key_announce_list_vec() -> (r: Vec<u8>)
    ensures
        r@ == key_announce_list(),
{
    let mut r = key_announce_vec();
    r.push(45);
    r.push(108);
    r.push(105);
    r.push(115);
    r.push(116);
    proof {
        assert(r@ =~= key_announce_list());
    }
    r
}

/// The string entries of one tier of `announce-list`, in order; anything
/// that is not a string is passed over.
pub open spec fn spec_tier_strs(items: Seq<ItemV>) -> Seq<Seq<u8>>
    decreases items.len(),
{
    if items.len() == 0 {
        Seq::empty()
    } else {
        match items[0] {
            ItemV::Str { bytes } => seq![bytes] + spec_tier_strs(items.skip(1)),
            _ => spec_tier_strs(items.skip(1)),
        }
    }
}

/// Every tracker of `announce-list`, tier by tier in order; anything that
/// is not a tier list is passed over.
pub open spec fn spec_tiers(items: Seq<ItemV>) -> Seq<Seq<u8>>
    decreases items.len(),
{
    if items.len() == 0 {
        Seq::empty()
    } else {
        match items[0] {
            ItemV::List { items: tier } => spec_tier_strs(tier) + spec_tiers(items.skip(1)),
            _ => spec_tiers(items.skip(1)),
        }
    }
}

/// The tracker addresses a metainfo document offers, in the order they are
/// to be tried: the `announce` entry first, then every entry of
/// `announce-list` tier by tier.
pub open spec fn spec_announce_candidates(items: Seq<ItemV>) -> Seq<Seq<u8>> {
    if items.len() >= 1 {
        match items[0] {
            ItemV::Dict { pairs } => {
                let head = match dict_lookup(pairs, key_announce()) {
                    Some(av) => match av {
                        ItemV::Str { bytes } => seq![bytes],
                        _ => Seq::empty(),
                    },
                    None => Seq::empty(),
                };
                let tail = match dict_lookup(pairs, key_announce_list()) {
                    Some(lv) => match lv {
                        ItemV::List { items: tiers } => spec_tiers(tiers),
                        _ => Seq::empty(),
                    },
                    None => Seq::empty(),
                };
                head + tail
            }
            _ => Seq::empty(),
        }
    } else {
        Seq::empty()
    }
}

/// Collect the tracker addresses of a parsed metainfo document, in the
/// order they are to be tried.
pub fn announce_candidates(tree: &Vec<Item>) -> (r: Vec<Vec<u8>>)
    ensures
        r@.map_values(|c: Vec<u8>| c@) == spec_announce_candidates(items_view(tree@)),
{
    let ghost whole = spec_announce_candidates(items_view(tree@));
    let mut out: Vec<Vec<u8>> = Vec::new();
    if tree.len() < 1 {
        proof {
            assert(out@.map_values(|c: Vec<u8>| c@) =~= whole);
        }
        return out;
    }
    proof {
        assert(items_view(tree@)[0] == item_view(tree@[0]));
    }
    let dict = match &tree[0] {
        Item::Dict(d) => d,
        _ => {
            proof {
                assert(out@.map_values(|c: Vec<u8>| c@) =~= whole);
            }
            return out;
        }
    };
    let key_a = key_announce_vec();
    match dict_find(dict, key_a.as_slice()) {
        Some(av) => match av {
            Item::String(sb) => {
                let c = copy_range(sb, 0, sb.len());
                proof {
                    assert(c@ =~= sb@);
                }
                out.push(c);
            }
            _ => {}
        },
        None => {}
    }
    let ghost base = out@.map_values(|c: Vec<u8>| c@);
    let key_al = key_announce_list_vec();
    match dict_find(dict, key_al.as_slice()) {
        Some(lv) => match lv {
            Item::List(tiers) => {
                let ghost tv = items_view(tiers@);
                proof {
                    assert(tv.skip(0) =~= tv);
                    assert(base + spec_tiers(tv) =~= whole);
                }
                let nt = tiers.len();
                let mut k: usize = 0;
                while k < nt
                    invariant
                        k <= nt,
                        nt == tiers@.len(),
                        tv == items_view(tiers@),
                        out@.map_values(|c: Vec<u8>| c@) + spec_tiers(tv.skip(k as int))
                            == whole,
                    decreases nt - k,
                {
                    proof {
                        assert(tv.skip(k as int)[0] == item_view(tiers@[k as int]));
                        assert(tv.skip(k as int).skip(1) =~= tv.skip(k + 1));
                    }
                    match &tiers[k] {
                        Item::List(tier) => {
                            let ghost tierv = items_view(tier@);
                            proof {
                                assert(tierv.skip(0) =~= tierv);
                                assert(out@.map_values(|c: Vec<u8>| c@) + (spec_tier_strs(
                                    tierv,
                                ) + spec_tiers(tv.skip(k + 1))) =~= whole);
                            }
                            let ntier = tier.len();
                            let mut j: usize = 0;
                            while j < ntier
                                invariant
                                    j <= ntier,
                                    ntier == tier@.len(),
                                    tierv == items_view(tier@),
                                    out@.map_values(|c: Vec<u8>| c@) + (spec_tier_strs(
                                        tierv.skip(j as int),
                                    ) + spec_tiers(tv.skip(k + 1))) == whole,
                                decreases ntier - j,
                            {
                                proof {
                                    assert(tierv.skip(j as int)[0] == item_view(
                                        tier@[j as int],
                                    ));
                                    assert(tierv.skip(j as int).skip(1) =~= tierv.skip(
                                        j + 1,
                                    ));
                                }
                                match &tier[j] {
                                    Item::String(sb) => {
                                        let c = copy_range(sb, 0, sb.len());
                                        let ghost pre = out@;
                                        proof {
                                            assert(c@ =~= sb@);
                                        }
                                        out.push(c);
                                        proof {
                                            assert(out@.map_values(|c2: Vec<u8>| c2@)
                                                =~= pre.map_values(
                                                |c2: Vec<u8>| c2@,
                                            ).push(sb@));
                                            assert(out@.map_values(|c2: Vec<u8>| c2@) + (
                                            spec_tier_strs(tierv.skip(j + 1))
                                                + spec_tiers(tv.skip(k + 1)))
                                                =~= pre.map_values(|c2: Vec<u8>| c2@) + ((
                                            seq![sb@] + spec_tier_strs(tierv.skip(j + 1)))
                                                + spec_tiers(tv.skip(k + 1))));
                                        }
                                    }
                                    _ => {}
                                }
                                j = j + 1;
                            }
                            proof {
                                assert(tierv.skip(ntier as int).len() == 0);
                                assert(spec_tier_strs(tierv.skip(ntier as int))
                                    =~= Seq::<Seq<u8>>::empty());
                                assert(out@.map_values(|c: Vec<u8>| c@) + spec_tiers(
                                    tv.skip(k + 1),
                                ) =~= out@.map_values(|c: Vec<u8>| c@) + (
                                Seq::<Seq<u8>>::empty() + spec_tiers(tv.skip(k + 1))));
                            }
                        }
                        _ => {}
                    }
                    k = k + 1;
                }
                proof {
                    assert(tv.skip(nt as int).len() == 0);
                    assert(spec_tiers(tv.skip(nt as int)) =~= Seq::<Seq<u8>>::empty());
                    assert(out@.map_values(|c: Vec<u8>| c@)
                        =~= out@.map_values(|c: Vec<u8>| c@) + Seq::<Seq<u8>>::empty());
                }
            }
            _ => {
                proof {
                    assert(base =~= whole);
                }
            }
        },
        None => {
            proof {
                assert(base =~= whole);
            }
        }
    }
    out
}

/// The bytes of a `path` list: every element must be a string.
pub open spec fn spec_path_strs(items: Seq<ItemV>) -> Option<Seq<Seq<u8>>>
    decreases items.len(),
{
    if items.len() == 0 {
        Some(Seq::empty())
    } else {
        match items[0] {
            ItemV::Str { bytes } => match spec_path_strs(items.skip(1)) {
                Some(rest) => Some(seq![bytes] + rest),
                None => None,
            },
            _ => None,
        }
    }
}

/// The payload files named by a `files` list: each entry must be a
/// dictionary with an integral `length` and a non-empty `path` of strings;
/// every path is rooted at the torrent's name.
pub open spec fn spec_file_entries(items: Seq<ItemV>, name: Seq<u8>) -> Option<
    (Seq<FileV>, int),
>
    decreases items.len(),
{
    if items.len() == 0 {
        Some((Seq::empty(), 0))
    } else {
        match items[0] {
            ItemV::Dict { pairs } => match dict_lookup(pairs, key_length()) {
                Some(lv) => match lv {
                    ItemV::Int { value } => if 0 <= value <= usize::MAX {
                        match dict_lookup(pairs, key_path()) {
                            Some(pv) => match pv {
                                ItemV::List { items: pitems } => if pitems.len() >= 1 {
                                    match spec_path_strs(pitems) {
                                        Some(comps) => match spec_file_entries(
                                            items.skip(1),
                                            name,
                                        ) {
                                            Some(rt) => Some(
                                                (
                                                    seq![
                                                        FileV {
                                                            path: seq![name] + comps,
                                                            len: value,
                                                        },
                                                    ] + rt.0,
                                                    value + rt.1,
                                                ),
                                            ),
                                            None => None,
                                        },
                                        None => None,
                                    }
                                } else {
                                    None
                                },
                                _ => None,
                            },
                            None => None,
                        }
                    } else {
                        None
                    },
                    _ => None,
                },
                None => None,
            },
            _ => None,
        }
    }
}

/// The file layout the `info` dictionary describes: a single file under the
/// torrent's name, or a directory of that name holding the listed files.
pub open spec fn spec_parse_file(pairs: Seq<(Seq<u8>, ItemV)>) -> Option<(Seq<FileV>, int)> {
    match dict_lookup(pairs, key_length()) {
        Some(lv) => match lv {
            ItemV::Int { value } => if 0 <= value <= usize::MAX {
                match dict_lookup(pairs, key_name()) {
                    Some(nv) => match nv {
                        ItemV::Str { bytes } => Some(
                            (seq![FileV { path: seq![bytes], len: value }], value),
                        ),
                        _ => None,
                    },
                    None => None,
                }
            } else {
                None
            },
            _ => None,
        },
        None => match dict_lookup(pairs, key_name()) {
            Some(nv) => match nv {
                ItemV::Str { bytes } => match dict_lookup(pairs, key_files()) {
                    Some(fv) => match fv {
                        ItemV::List { items } => match spec_file_entries(items, bytes) {
                            Some(ft) => if ft.1 <= usize::MAX {
                                Some(ft)
                            } else {
                                None
                            },
                            None => None,
                        },
                        _ => None,
                    },
                    None => None,
                },
                _ => None,
            },
            None => None,
        },
    }
}

/// Every file entry contributes a non-negative byte count.
pub proof fn lemma_file_entries_nonneg(items: Seq<ItemV>, name: Seq<u8>)
    ensures
        (spec_file_entries(items, name) matches Some(ft) ==> ft.1 >= 0),
    decreases items.len(),
{
    if items.len() > 0 {
        lemma_file_entries_nonneg(items.skip(1), name);
    }
}

/// Extract the file layout and total payload length from the `info`
/// dictionary's entries.
pub fn parse_file(info: &Vec<(Vec<u8>, Item)>) -> (r: Option<(Vec<FileSize>, usize)>)
    ensures
        match r {
            Some(v) => spec_parse_file(pairs_view(info@)) == Some(
                (files_view(v.0@), v.1 as int),
            ),
            None => spec_parse_file(pairs_view(info@)) is None,
        },
{
    let ghost ip = pairs_view(info@);
    let key_l = key_length_vec();
    let key_n = key_name_vec();
    match dict_find(info, key_l.as_slice()) {
        Some(it) => {
            match it {
                Item::Integer(v) => {
                    match dict_find(info, key_n.as_slice()) {
                        Some(nit) => match nit {
                            Item::String(nm) => {
                                let mut path: Vec<Vec<u8>> = Vec::new();
                                let name_copy = copy_range(nm, 0, nm.len());
                                proof {
                                    assert(name_copy@ =~= nm@);
                                }
                                path.push(name_copy);
                                let mut files: Vec<FileSize> = Vec::new();
                                files.push(FileSize { path, len: *v });
                                proof {
                                    assert(files_view(files@) =~~= seq![
                                        FileV { path: seq![nm@], len: *v as int },
                                    ]);
                                }
                                Some((files, *v))
                            }
                            _ => None,
                        },
                        None => None,
                    }
                }
                _ => None,
            }
        }
        None => {
            match dict_find(info, key_n.as_slice()) {
                Some(nit) => match nit {
                    Item::String(nm) => {
                        let key_f = key_files_vec();
                        match dict_find(info, key_f.as_slice()) {
                            Some(fit) => match fit {
                                Item::List(litems) => parse_file_entries(litems, nm),
                                _ => None,
                            },
                            None => None,
                        }
                    }
                    _ => None,
                },
                None => None,
            }
        }
    }
}

/// Walk a `files` list, building one `FileSize` per entry and summing the
/// lengths; any malformed entry or a total too large for a machine word
/// rejects the metainfo.
fn parse_file_entries(litems: &Vec<Item>, nm: &Vec<u8>) -> (r: Option<(Vec<FileSize>, usize)>)
    ensures
        match r {
            Some(v) => (spec_file_entries(items_view(litems@), nm@) matches Some(ft)
                && files_view(v.0@) == ft.0 && v.1 as int == ft.1),
            None => spec_file_entries(items_view(litems@), nm@) is None
                || spec_file_entries(items_view(litems@), nm@)->Some_0.1 > usize::MAX,
        },
{
    let ghost lv = items_view(litems@);
    let key_l = key_length_vec();
    let key_p = key_path_vec();
    let n = litems.len();
    let mut out: Vec<FileSize> = Vec::new();
    let mut total: usize = 0;
    let mut k: usize = 0;
    proof {
        assert(files_view(out@) =~= Seq::<FileV>::empty());
        assert(lv.skip(0) =~= lv);
        if spec_file_entries(lv, nm@) is Some {
            let ft = spec_file_entries(lv, nm@)->Some_0;
            assert(files_view(out@) + ft.0 =~= ft.0);
        }
    }
    while k < n
        invariant
            k <= n,
            n == litems@.len(),
            lv == items_view(litems@),
            key_l@ == key_length(),
            key_p@ == key_path(),
            ({
                let whole = spec_file_entries(lv, nm@);
                let tail = spec_file_entries(lv.skip(k as int), nm@);
                match tail {
                    Some(ft) => whole == Some((files_view(out@) + ft.0, total + ft.1)),
                    None => whole is None,
                }
            }),
        decreases n - k,
    {
        let ghost tail_pre = lv.skip(k as int);
        proof {
            assert(tail_pre[0] == item_view(litems@[k as int]));
            assert(tail_pre.skip(1) =~= lv.skip(k + 1));
        }
        let entry = &litems[k];
        match entry {
            Item::Dict(fpairs) => {
                match dict_find(fpairs, key_l.as_slice()) {
                    Some(lit) => match lit {
                        Item::Integer(flen) => {
                            match dict_find(fpairs, key_p.as_slice()) {
                                Some(pit) => match pit {
                                    Item::List(pitems) => {
                                        if pitems.len() == 0 {
                                            return None;
                                        }
                                        let comps = match collect_path_strs(pitems) {
                                            Some(c) => c,
                                            None => {
                                                return None;
                                            }
                                        };
                                        let ghost comps_v = comps@.map_values(
                                            |c: Vec<u8>| c@,
                                        );
                                        let mut path: Vec<Vec<u8>> = Vec::new();
                                        let name_copy = copy_range(nm, 0, nm.len());
                                        proof {
                                            assert(name_copy@ =~= nm@);
                                        }
                                        path.push(name_copy);
                                        let mut comps_m = comps;
                                        path.append(&mut comps_m);
                                        proof {
                                            assert(path@.map_values(|c: Vec<u8>| c@)
                                                =~= seq![nm@] + comps_v);
                                        }
                                        let new_total = match total.checked_add(*flen) {
                                            Some(t) => t,
                                            None => {
                                                proof {
                                                    lemma_file_entries_nonneg(
                                                        lv.skip(k + 1),
                                                        nm@,
                                                    );
                                                }
                                                return None;
                                            }
                                        };
                                        let ghost fv_new = FileV {
                                            path: seq![nm@] + comps_v,
                                            len: *flen as int,
                                        };
                                        let ghost pre_out = out@;
                                        out.push(FileSize { path, len: *flen });
                                        total = new_total;
                                        proof {
                                            assert(files_view(out@) =~~= files_view(
                                                pre_out,
                                            ).push(fv_new));
                                            if spec_file_entries(lv.skip(k + 1), nm@)
                                                is Some {
                                                let rt = spec_file_entries(
                                                    lv.skip(k + 1),
                                                    nm@,
                                                )->Some_0;
                                                assert(files_view(pre_out).push(fv_new)
                                                    + rt.0 =~= files_view(pre_out) + (
                                                seq![fv_new] + rt.0));
                                            }
                                        }
                                    }
                                    _ => {
                                        return None;
                                    }
                                },
                                None => {
                                    return None;
                                }
                            }
                        }
                        _ => {
                            return None;
                        }
                    },
                    None => {
                        return None;
                    }
                }
            }
            _ => {
                return None;
            }
        }
        k = k + 1;
    }
    proof {
        assert(lv.skip(n as int).len() == 0);
        assert(files_view(out@) + Seq::<FileV>::empty() =~= files_view(out@));
    }
    Some((out, total))
}

/// The mathematical form of a usable torrent descriptor.
#[verifier::ext_equal]
pub ghost struct ClientV {
    pub items: Seq<ItemV>,
    pub info_hash: Seq<u8>,
    pub piece_len: int,
    pub num_pieces: int,
    pub pieces: Seq<u8>,
    pub files: Seq<FileV>,
    pub total: int,
}

/// What a metainfo document denotes, when it is usable: a top-level
/// dictionary whose `info` entry carries an integral `piece length` that a
/// wire offset can hold, a `pieces` digest string, and a file layout; the
/// info-hash is the digest of the `info` dictionary's own bytes.
pub open spec fn spec_client(s: Seq<u8>) -> Option<ClientV> {
    match spec_parse_seq(s) {
        Some(parsed) => if parsed.0.len() >= 1 {
            match parsed.0[0] {
                ItemV::Dict { pairs } => match dict_lookup(pairs, key_info()) {
                    Some(iv) => match iv {
                        ItemV::Dict { pairs: ipairs } => match dict_lookup(
                            ipairs,
                            key_piece_length(),
                        ) {
                            Some(plv) => match plv {
                                ItemV::Int { value: pl } => if 1 <= pl <= u32::MAX {
                                    match dict_lookup(ipairs, key_pieces()) {
                                        Some(psv) => match psv {
                                            ItemV::Str { bytes: ps } => match spec_parse_file(
                                                ipairs,
                                            ) {
                                                Some(ft) => match find_info(s, 0) {
                                                    Some(i) => if s.len() >= i + 8 {
                                                        Some(
                                                            ClientV {
                                                                items: parsed.0,
                                                                info_hash: crate::hash::sha1_of(
                                                                    s.subrange(i + 6, s.len() - 1),
                                                                ),
                                                                piece_len: pl,
                                                                num_pieces: ps.len() as int / 20,
                                                                pieces: ps,
                                                                files: ft.0,
                                                                total: ft.1,
                                                            },
                                                        )
                                                    } else {
                                                        None
                                                    },
                                                    None => None,
                                                },
                                                None => None,
                                            },
                                            _ => None,
                                        },
                                        None => None,
                                    }
                                } else {
                                    None
                                },
                                _ => None,
                            },
                            None => None,
                        },
                        _ => None,
                    },
                    None => None,
                },
                _ => None,
            }
        } else {
            None
        },
        None => None,
    }
}

/// The torrent descriptor, shared read-only by every session and pool.
pub struct Client {
    pub tree: Vec<Item>,
    pub info_hash: Vec<u8>,
    pub piece_len: usize,
    pub num_pieces: usize,
    pub hashes: Vec<Vec<u8>>,
    pub files: Vec<FileSize>,
    pub file_len: usize,
}

impl Client {
    /// Build the descriptor from the raw bytes of a metainfo file; any
    /// malformed or unusable document is rejected.
    pub fn new(bytes: &Vec<u8>) -> (r: Option<Client>)
        ensures
            match r {
                Some(c) => (spec_client(bytes@) matches Some(cv) && {
                    &&& items_view(c.tree@) == cv.items
                    &&& c.info_hash@ == cv.info_hash
                    &&& c.piece_len == cv.piece_len
                    &&& c.num_pieces == cv.num_pieces
                    &&& c.num_pieces == cv.pieces.len() as int / 20
                    &&& c.hashes@.len() == cv.num_pieces
                    &&& (forall|i: int| 0 <= i < c.hashes@.len()
                        ==> (#[trigger] c.hashes@[i])@ == cv.pieces.subrange(
                            i * 20,
                            i * 20 + 20,
                        ))
                    &&& files_view(c.files@) == cv.files
                    &&& c.file_len == cv.total
                }),
                None => spec_client(bytes@) is None,
            },
    {
        let mut doc = copy_range(bytes, 0, bytes.len());
        proof {
            assert(doc@ =~= bytes@);
        }
        let items = match crate::bencode::parse(&mut doc) {
            Some(i) => i,
            None => {
                return None;
            }
        };
        if items.len() < 1 {
            return None;
        }
        proof {
            assert(items_view(items@)[0] == item_view(items@[0]));
        }
        let (piece_len, num_pieces, hashes, files, file_len) = match &items[0] {
            Item::Dict(dict) => {
                let key_i = key_info_vec();
                match dict_find(dict, key_i.as_slice()) {
                    Some(iv) => match iv {
                        Item::Dict(ipairs) => {
                            let key_pl = key_piece_length_vec();
                            let pl = match dict_find(ipairs, key_pl.as_slice()) {
                                Some(plv) => match plv {
                                    Item::Integer(pl) => *pl,
                                    _ => {
                                        return None;
                                    }
                                },
                                None => {
                                    return None;
                                }
                            };
                            if pl < 1 || pl > u32::MAX as usize {
                                return None;
                            }
                            let key_ps = key_pieces_vec();
                            let ps = match dict_find(ipairs, key_ps.as_slice()) {
                                Some(psv) => match psv {
                                    Item::String(ps) => ps,
                                    _ => {
                                        return None;
                                    }
                                },
                                None => {
                                    return None;
                                }
                            };
                            let hashes = split_hashes(ps.as_slice());
                            let num_pieces = ps.len() / 20;
                            let (files, file_len) = match parse_file(ipairs) {
                                Some(v) => v,
                                None => {
                                    return None;
                                }
                            };
                            (pl, num_pieces, hashes, files, file_len)
                        }
                        _ => {
                            return None;
                        }
                    },
                    None => {
                        return None;
                    }
                }
            }
            _ => {
                return None;
            }
        };
        let info_hash = match get_info_hash(bytes) {
            Some(h) => h,
            None => {
                return None;
            }
        };
        Some(
            Client {
                tree: items,
                info_hash,
                piece_len,
                num_pieces,
                hashes,
                files,
                file_len,
            },
        )
    }
}

/// Copy the byte strings of a `path` list; any non-string element rejects
/// the metainfo.
fn collect_path_strs(pitems: &Vec<Item>) -> (r: Option<Vec<Vec<u8>>>)
    ensures
        match r {
            Some(v) => spec_path_strs(items_view(pitems@)) == Some(
                v@.map_values(|c: Vec<u8>| c@),
            ),
            None => spec_path_strs(items_view(pitems@)) is None,
        },
{
    let ghost pv = items_view(pitems@);
    let n = pitems.len();
    let mut out: Vec<Vec<u8>> = Vec::new();
    let mut k: usize = 0;
    proof {
        assert(pv.skip(0) =~= pv);
        if spec_path_strs(pv) is Some {
            let rest = spec_path_strs(pv)->Some_0;
            assert(out@.map_values(|c: Vec<u8>| c@) + rest =~= rest);
        }
    }
    while k < n
        invariant
            k <= n,
            n == pitems@.len(),
            pv == items_view(pitems@),
            ({
                let whole = spec_path_strs(pv);
                let tail = spec_path_strs(pv.skip(k as int));
                match tail {
                    Some(rest) => whole == Some(out@.map_values(|c: Vec<u8>| c@) + rest),
                    None => whole is None,
                }
            }),
        decreases n - k,
    {
        proof {
            assert(pv.skip(k as int)[0] == item_view(pitems@[k as int]));
            assert(pv.skip(k as int).skip(1) =~= pv.skip(k + 1));
        }
        match &pitems[k] {
            Item::String(sbytes) => {
                let c = copy_range(sbytes, 0, sbytes.len());
                proof {
                    assert(c@ =~= sbytes@);
                    if spec_path_strs(pv.skip(k + 1)) is Some {
                        let rest = spec_path_strs(pv.skip(k + 1))->Some_0;
                        assert(out@.push(c).map_values(|c2: Vec<u8>| c2@)
                            =~= out@.map_values(|c2: Vec<u8>| c2@).push(c@));
                        assert(out@.map_values(|c2: Vec<u8>| c2@).push(sbytes@) + rest
                            =~= out@.map_values(|c2: Vec<u8>| c2@) + (seq![sbytes@]
                            + rest));
                    }
                }
                out.push(c);
            }
            _ => {
                return None;
            }
        }
        k = k + 1;
    }
    proof {
        assert(pv.skip(n as int).len() == 0);
        assert(out@.map_values(|c: Vec<u8>| c@) + Seq::<Seq<u8>>::empty() =~= out@.map_values(
            |c: Vec<u8>| c@,
        ));
    }
    Some(out)
}

} // verus!
