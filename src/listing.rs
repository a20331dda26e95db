//! The HTML page that lists a directory.
use crate::text::{chars_of, is_hidden, path_is_hidden, split_chars, split_on, string_of};
use vstd::prelude::*;

verus! {

/// `s` with each `"` preceded by a backslash.
pub open spec fn escape_quotes(s: Seq<char>) -> Seq<char>
    decreases s.len(),
{
    if s.len() == 0 {
        s
    } else if s.last() == '"' {
        escape_quotes(s.drop_last()) + seq!['\\', '"']
    } else {
        escape_quotes(s.drop_last()).push(s.last())
    }
}

fn escaped(v: &Vec<char>) -> (r: Vec<char>)
    ensures
        r@ == escape_quotes(v@),
{
    let mut out: Vec<char> = Vec::new();
    let mut i: usize = 0;
    while i < v.len()
        invariant
            i <= v.len(),
            out@ == escape_quotes(v@.take(i as int)),
        decreases v.len() - i,
    {
        assert(v@.take(i + 1).drop_last() =~= v@.take(i as int));
        if v[i] == '"' {
            out.push('\\');
            out.push('"');
            assert(out@ =~= escape_quotes(v@.take(i + 1)));
        } else {
            out.push(v[i]);
        }
        i = i + 1;
    }
    assert(v@.take(i as int) =~= v@);
    out
}

/// The last `/`-separated segment of a path: the entry's own name.
pub open spec fn last_segment(p: Seq<char>) -> Seq<char> {
    split_on(p, '/').last()
}

/// The list item that links to an entry.
pub open spec fn entry_item(name: Seq<char>, is_dir: bool) -> Seq<char> {
    if is_dir {
        "<li class=\"directory\"><a href=\""@ + name + "/\">"@ + name + "</a></li>"@
    } else {
        "<li><a href=\""@ + name + "/\">"@ + name + "</a></li>"@
    }
}

/// The script call that adds an entry to the richer listing.
pub open spec fn entry_script(name: Seq<char>, is_dir: bool) -> Seq<char> {
    let e = escape_quotes(name);
    "<script>addRow(\""@ + e + "\", \""@ + e + "\", "@ + (if is_dir { "true"@ } else { "false"@ })
        + ", \"0\", \"\", \"0\", \"\");</script>"@
}

pub open spec fn entry_views(v: Seq<(String, bool)>) -> Seq<(Seq<char>, bool)> {
    v.map_values(|e: (String, bool)| (e.0@, e.1))
}

/// The entries that are listed: all of them, or those that name no
/// dot-file when dot-files are hidden.
pub open spec fn shown(es: Seq<(Seq<char>, bool)>, dot_files: bool) -> Seq<(Seq<char>, bool)> {
    es.filter(|e: (Seq<char>, bool)| dot_files || !path_is_hidden(e.0))
}

pub open spec fn items_html(es: Seq<(Seq<char>, bool)>) -> Seq<char>
    decreases es.len(),
{
    if es.len() == 0 {
        Seq::empty()
    } else {
        items_html(es.drop_last()) + entry_item(last_segment(es.last().0), es.last().1)
    }
}

pub open spec fn scripts_html(es: Seq<(Seq<char>, bool)>) -> Seq<char>
    decreases es.len(),
{
    if es.len() == 0 {
        Seq::empty()
    } else {
        scripts_html(es.drop_last()) + entry_script(last_segment(es.last().0), es.last().1)
    }
}

pub open spec fn page_start() -> Seq<char> {
    "<!DOCTYPE html>\n<html dir=\"ltr\" lang=\"en\">\n<head><meta charset=\"utf-8\"><title id=\"title\"></title>\n</head>\n<body><div id=\"staticListing\"><style>li.directory {background:#aab}</style><a href=\"../\">parent</a><ul>"@
}

pub open spec fn page_middle() -> Seq<char> {
    "</ul></div><div style=\"display: none;\" id=\"niceListing\">\n"@
}

pub open spec fn parent_script() -> Seq<char> {
    "<script>onHasParentDirectory();</script>"@
}

/// The listing page: a plain list of links, then the calls that fill the
/// richer listing, which offers a way up unless the directory is the root.
pub open spec fn listing_page(
    entries: Seq<(Seq<char>, bool)>,
    dot_files: bool,
    origpath: Seq<char>,
    path: Seq<char>,
) -> Seq<char> {
    let es = shown(entries, dot_files);
    page_start() + items_html(es) + page_middle() + (if origpath != "/"@ { parent_script() } else { Seq::empty() })
        + "<script>start(\""@ + escape_quotes(path) + "\")</script>"@ + scripts_html(es) + "</div></body></html>"@
}

fn append_str(out: &mut Vec<char>, s: &str)
    ensures
        final(out)@ == old(out)@ + s@,
{
    let mut c = chars_of(s);
    out.append(&mut c);
}

fn append_vec(out: &mut Vec<char>, v: &Vec<char>)
    ensures
        final(out)@ == old(out)@ + v@,
{
    let mut i: usize = 0;
    while i < v.len()
        invariant
            i <= v.len(),
            out@ == old(out)@ + v@.take(i as int),
        decreases v.len() - i,
    {
        out.push(v[i]);
        i = i + 1;
        assert(out@ =~= old(out)@ + v@.take(i as int));
    }
    assert(v@.take(i as int) =~= v@);
}

/// Adds the list item and the script call for one entry.
fn render_entry(items: &mut Vec<char>, scripts: &mut Vec<char>, name: &String, is_dir: bool)
    ensures
        final(items)@ == old(items)@ + entry_item(last_segment(name@), is_dir),
        final(scripts)@ == old(scripts)@ + entry_script(last_segment(name@), is_dir),
{
    let pieces = split_chars(&chars_of(name.as_str()), '/');
    proof {
        crate::text::lemma_split_on_nonempty(name@, '/');
    }
    let file_name = pieces[pieces.len() - 1].clone();
    assert(file_name@ == last_segment(name@));
    if is_dir {
        append_str(items, "<li class=\"directory\"><a href=\"");
    } else {
        append_str(items, "<li><a href=\"");
    }
    append_vec(items, &file_name);
    append_str(items, "/\">");
    append_vec(items, &file_name);
    append_str(items, "</a></li>");
    let e = escaped(&file_name);
    append_str(scripts, "<script>addRow(\"");
    append_vec(scripts, &e);
    append_str(scripts, "\", \"");
    append_vec(scripts, &e);
    append_str(scripts, "\", ");
    if is_dir {
        append_str(scripts, "true");
    } else {
        append_str(scripts, "false");
    }
    append_str(scripts, ", \"0\", \"\", \"0\", \"\");</script>");
    assert(items@ =~= old(items)@ + entry_item(last_segment(name@), is_dir));
    assert(scripts@ =~= old(scripts)@ + entry_script(last_segment(name@), is_dir));
}

/// Renders the listing of a directory whose entries are given by full path
/// and whether each is a directory; dot-files are left out unless
/// `dot_files` is set.
pub fn render_listing(entries: &Vec<(String, bool)>, dot_files: bool, origpath: &str, path: &str) -> (r: String)
    ensures
        r@ == listing_page(entry_views(entries@), dot_files, origpath@, path@),
{
    let ghost ev = entry_views(entries@);
    let mut items: Vec<char> = Vec::new();
    let mut scripts: Vec<char> = Vec::new();
    let mut k: usize = 0;
    while k < entries.len()
        invariant
            k <= entries.len(),
            ev == entry_views(entries@),
            items@ == items_html(shown(ev.take(k as int), dot_files)),
            scripts@ == scripts_html(shown(ev.take(k as int), dot_files)),
        decreases entries.len() - k,
    {
        let ghost before = shown(ev.take(k as int), dot_files);
        assert(ev.take(k + 1).drop_last() =~= ev.take(k as int));
        assert(ev.take(k + 1).last() == ev[k as int]);
        proof {
            reveal(Seq::filter);
        }
        let name = &entries[k].0;
        let is_dir = entries[k].1;
        assert(ev[k as int].0 == name@ && ev[k as int].1 == is_dir);
        if dot_files || !is_hidden(name) {
            render_entry(&mut items, &mut scripts, name, is_dir);
            assert(shown(ev.take(k + 1), dot_files) =~= before.push(ev[k as int]));
            assert(before.push(ev[k as int]).drop_last() =~= before);
        } else {
            assert(shown(ev.take(k + 1), dot_files) =~= before);
        }
        k = k + 1;
    }
    assert(ev.take(k as int) =~= ev);
    let mut page: Vec<char> = Vec::new();
    append_str(
        &mut page,
        "<!DOCTYPE html>\n<html dir=\"ltr\" lang=\"en\">\n<head><meta charset=\"utf-8\"><title id=\"title\"></title>\n</head>\n<body><div id=\"staticListing\"><style>li.directory {background:#aab}</style><a href=\"../\">parent</a><ul>",
    );
    append_vec(&mut page, &items);
    append_str(&mut page, "</ul></div><div style=\"display: none;\" id=\"niceListing\">\n");
    let orig = chars_of(origpath);
    if !(orig.len() == 1 && orig[0] == '/') {
        append_str(&mut page, "<script>onHasParentDirectory();</script>");
        proof {
            reveal_strlit("/");
        }
        assert(origpath@ != "/"@) by {
            if origpath@ == "/"@ {
                assert(orig@ =~= seq!['/']);
            }
        }
    } else {
        proof {
            reveal_strlit("/");
        }
        assert(origpath@ =~= "/"@);
    }
    append_str(&mut page, "<script>start(\"");
    append_vec(&mut page, &escaped(&chars_of(path)));
    append_str(&mut page, "\")</script>");
    append_vec(&mut page, &scripts);
    append_str(&mut page, "</div></body></html>");
    assert(page@ =~= listing_page(ev, dot_files, origpath@, path@));
    string_of(&page)
}

} // verus!
