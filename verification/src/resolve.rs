//! Resource resolver: mapping a filesystem outcome for a request path
//! to a status code and a response body.
//!
//! The filesystem itself is a collaborator outside the library; it
//! reports what a path is — a directory with its direct entries, a
//! regular file with its bytes, or nothing — and the resolver builds
//! the response: an HTML listing with one link per entry, the file's
//! bytes verbatim, or `404` with the body `Not Found`. A path whose
//! metadata can be read but that is neither a directory nor a regular
//! file, or a file whose content cannot be read, counts as missing.

use vstd::prelude::*;
use vstd::string::StrSliceExecFns;
use vstd::string::StringExecFns;
use vstd::utf8::encode_utf8;

verus! {

/// One direct child of a directory: its full path (the link target)
/// and its bare name (the link label).
pub struct DirEntry {
    pub path: String,
    pub name: String,
}

/// What the filesystem reports for a request path.
pub enum FsNode {
    Directory(Vec<DirEntry>),
    File(Vec<u8>),
    Missing,
}

/// The view of directory entries as pairs of character sequences.
pub open spec fn entries_view(es: Seq<DirEntry>) -> Seq<(Seq<char>, Seq<char>)> {
    Seq::new(es.len(), |i: int| (es[i].path@, es[i].name@))
}

/// The hyperlink rendered for one directory entry.
pub open spec fn anchor_chars(path: Seq<char>, name: Seq<char>) -> Seq<char> {
    "<a href=\""@ + path + "\">"@ + name + "</a><br>"@
}

/// The concatenated hyperlinks of a directory's entries, in order.
pub open spec fn entry_list_chars(es: Seq<(Seq<char>, Seq<char>)>) -> Seq<char>
    decreases es.len(),
{
    if es.len() == 0 {
        Seq::empty()
    } else {
        entry_list_chars(es.drop_last()) + anchor_chars(es.last().0, es.last().1)
    }
}

/// The directory listing page: a minimal HTML shell with the
/// directory path as heading and one link per direct entry.
pub open spec fn dir_page_chars(dir: Seq<char>, es: Seq<(Seq<char>, Seq<char>)>) -> Seq<char> {
    "<html><body><h1>"@ + dir + "</h1><br>"@ + entry_list_chars(es) + "</body></html>"@
}

/// Renders the directory listing page for a directory path and its
/// direct entries.
pub fn dir_navigation_page(dir_name: &String, entries: &Vec<DirEntry>) -> (r: Vec<u8>)
    ensures
        r@ == encode_utf8(dir_page_chars(dir_name@, entries_view(entries@))),
{
    let ghost ev = entries_view(entries@);
    let mut page = String::from_str("<html><body><h1>");
    page.append(dir_name.as_str());
    page.append("</h1><br>");
    let n = entries.len();
    let mut i: usize = 0;
    proof {
        assert(ev.take(0) =~= Seq::<(Seq<char>, Seq<char>)>::empty());
    }
    while i < n
        invariant
            i <= n,
            n == entries@.len(),
            ev == entries_view(entries@),
            page@ == "<html><body><h1>"@ + dir_name@ + "</h1><br>"@ + entry_list_chars(
                ev.take(i as int),
            ),
        decreases n - i,
    {
        page.append("<a href=\"");
        page.append(entries[i].path.as_str());
        page.append("\">");
        page.append(entries[i].name.as_str());
        page.append("</a><br>");
        proof {
            assert(ev.take(i + 1).drop_last() =~= ev.take(i as int));
            assert(ev.take(i + 1).last() == (entries@[i as int].path@, entries@[i as int].name@));
            assert(page@ =~= "<html><body><h1>"@ + dir_name@ + "</h1><br>"@ + entry_list_chars(
                ev.take(i + 1),
            ));
        }
        i += 1;
    }
    page.append("</body></html>");
    proof {
        assert(ev.take(n as int) =~= ev);
        assert(page@ =~= dir_page_chars(dir_name@, ev));
    }
    page.as_str().as_bytes_vec()
}

/// Maps a filesystem outcome to the status code and body to send:
/// `200` with the listing page for a directory, `200` with the bytes
/// for a file, and `404` with `Not Found` for everything else.
pub fn resource_response(path: &String, node: FsNode) -> (r: (u16, Vec<u8>))
    ensures
        (node matches FsNode::Directory(es) ==> r.0 == 200 && r.1@ == encode_utf8(
            dir_page_chars(path@, entries_view(es@)),
        )),
        (node matches FsNode::File(content) ==> r.0 == 200 && r.1@ == content@),
        (node is Missing ==> r.0 == 404 && r.1@ == encode_utf8("Not Found"@)),
{
    match node {
        FsNode::Directory(entries) => {
            let page = dir_navigation_page(path, &entries);
            (200, page)
        },
        FsNode::File(content) => (200, content),
        FsNode::Missing => {
            let body = String::from_str("Not Found").as_str().as_bytes_vec();
            (404, body)
        },
    }
}

/// Law: the listing page for a directory holds the hyperlink of each
/// of its direct entries as a contiguous part.
pub proof fn lemma_dir_page_links_each_entry(
    dir: Seq<char>,
    es: Seq<(Seq<char>, Seq<char>)>,
    k: int,
)
    requires
        0 <= k < es.len(),
    ensures
        exists|pre: Seq<char>, post: Seq<char>|
            dir_page_chars(dir, es) == pre + anchor_chars(es[k].0, es[k].1) + post,
{
    lemma_entry_list_splits(es, k);
    let (pre0, post0) = choose|pre0: Seq<char>, post0: Seq<char>|
        entry_list_chars(es) == pre0 + anchor_chars(es[k].0, es[k].1) + post0;
    let pre = "<html><body><h1>"@ + dir + "</h1><br>"@ + pre0;
    let post = post0 + "</body></html>"@;
    assert(dir_page_chars(dir, es) =~= pre + anchor_chars(es[k].0, es[k].1) + post);
}

/// The concatenated hyperlinks hold each entry's hyperlink as a
/// contiguous part.
proof fn lemma_entry_list_splits(es: Seq<(Seq<char>, Seq<char>)>, k: int)
    requires
        0 <= k < es.len(),
    ensures
        exists|pre: Seq<char>, post: Seq<char>|
            entry_list_chars(es) == pre + anchor_chars(es[k].0, es[k].1) + post,
    decreases es.len(),
{
    if k == es.len() - 1 {
        let pre = entry_list_chars(es.drop_last());
        let post = Seq::<char>::empty();
        assert(entry_list_chars(es) =~= pre + anchor_chars(es[k].0, es[k].1) + post);
    } else {
        lemma_entry_list_splits(es.drop_last(), k);
        let (pre0, post0) = choose|pre0: Seq<char>, post0: Seq<char>|
            entry_list_chars(es.drop_last()) == pre0 + anchor_chars(
                es.drop_last()[k].0,
                es.drop_last()[k].1,
            ) + post0;
        let post = post0 + anchor_chars(es.last().0, es.last().1);
        assert(entry_list_chars(es) =~= pre0 + anchor_chars(es[k].0, es[k].1) + post);
    }
}

} // verus!
