use vstd::prelude::*;
use vstd::string::StringExecFns;

verus! {

/// An event of an XML reader, as far as page recognition needs it:
/// element names are local names.
#[derive(Debug, Clone)]
pub enum Event {
    StartElement(String),
    EndElement(String),
    Characters(String),
    CData(String),
    Other,
}

/// Where page recognition stands.
#[derive(Debug, Clone)]
pub enum Page {
    Idle,
    Open,
    Title(Vec<String>),
    Titled(String),
    Text { title: String, text: Vec<String> },
    Texted { title: String, text: String },
}

pub enum EventView {
    StartElement(Seq<char>),
    EndElement(Seq<char>),
    Characters(Seq<char>),
    CData(Seq<char>),
    Other,
}

pub enum PageView {
    Idle,
    Open,
    Title(Seq<Seq<char>>),
    Titled(Seq<char>),
    Text(Seq<char>, Seq<Seq<char>>),
    Texted(Seq<char>, Seq<char>),
}

pub open spec fn strings_view(xs: Seq<String>) -> Seq<Seq<char>> {
    xs.map_values(|s: String| s@)
}

impl View for Event {
    type V = EventView;

    open spec fn view(&self) -> EventView {
        match self {
            Event::StartElement(n) => EventView::StartElement(n@),
            Event::EndElement(n) => EventView::EndElement(n@),
            Event::Characters(s) => EventView::Characters(s@),
            Event::CData(s) => EventView::CData(s@),
            Event::Other => EventView::Other,
        }
    }
}

impl View for Page {
    type V = PageView;

    open spec fn view(&self) -> PageView {
        match self {
            Page::Idle => PageView::Idle,
            Page::Open => PageView::Open,
            Page::Title(ts) => PageView::Title(strings_view(ts@)),
            Page::Titled(t) => PageView::Titled(t@),
            Page::Text { title, text } => PageView::Text(title@, strings_view(text@)),
            Page::Texted { title, text } => PageView::Texted(title@, text@),
        }
    }
}

/// The fragments joined by single spaces.
pub open spec fn join_spaced(xs: Seq<Seq<char>>) -> Seq<char>
    decreases xs.len(),
{
    if xs.len() == 0 {
        Seq::empty()
    } else if xs.len() == 1 {
        xs[0]
    } else {
        join_spaced(xs.drop_last()) + seq![' '] + xs.last()
    }
}

pub open spec fn name_page() -> Seq<char> {
    seq!['p', 'a', 'g', 'e']
}

pub open spec fn name_title() -> Seq<char> {
    seq!['t', 'i', 't', 'l', 'e']
}

pub open spec fn name_text() -> Seq<char> {
    seq!['t', 'e', 'x', 't']
}

/// One transition of page recognition; any event not listed leaves the
/// state as it is.
pub open spec fn step(p: PageView, e: EventView) -> PageView {
    match p {
        PageView::Idle => match e {
            EventView::StartElement(n) => if n == name_page() {
                PageView::Open
            } else {
                p
            },
            _ => p,
        },
        PageView::Open => match e {
            EventView::StartElement(n) => if n == name_title() {
                PageView::Title(Seq::empty())
            } else {
                p
            },
            EventView::EndElement(n) => if n == name_page() {
                PageView::Idle
            } else {
                p
            },
            _ => p,
        },
        PageView::Title(ts) => match e {
            EventView::Characters(s) => PageView::Title(ts.push(s)),
            EventView::CData(s) => PageView::Title(ts.push(s)),
            EventView::EndElement(n) => if n == name_title() {
                PageView::Titled(join_spaced(ts))
            } else if n == name_page() {
                PageView::Idle
            } else {
                p
            },
            _ => p,
        },
        PageView::Titled(t) => match e {
            EventView::StartElement(n) => if n == name_text() {
                PageView::Text(t, Seq::empty())
            } else {
                p
            },
            EventView::EndElement(n) => if n == name_page() {
                PageView::Idle
            } else {
                p
            },
            _ => p,
        },
        PageView::Text(t, xs) => match e {
            EventView::Characters(s) => PageView::Text(t, xs.push(s)),
            EventView::CData(s) => PageView::Text(t, xs.push(s)),
            EventView::EndElement(n) => if n == name_text() {
                PageView::Texted(t, join_spaced(xs))
            } else if n == name_page() {
                PageView::Idle
            } else {
                p
            },
            _ => p,
        },
        PageView::Texted(_, _) => PageView::Idle,
    }
}

fn join_with_spaces(xs: &Vec<String>) -> (r: String)
    ensures
        r@ == join_spaced(strings_view(xs@)),
{
    let mut r = String::new();
    let mut i: usize = 0;
    let ghost v = strings_view(xs@);
    proof {
        reveal_strlit(" ");
    }
    while i < xs.len()
        invariant
            i <= xs@.len(),
            v == strings_view(xs@),
            r@ == join_spaced(v.subrange(0, i as int)),
        decreases xs@.len() - i,
    {
        proof {
            reveal_strlit(" ");
        }
        let ghost before = r@;
        if i > 0 {
            r.append(" ");
        }
        r.append(xs[i].as_str());
        assert(v[i as int] == xs@[i as int]@);
        i = i + 1;
        proof {
            let p = v.subrange(0, i as int);
            assert(p.drop_last() =~= v.subrange(0, i - 1));
            assert(p.last() == v[i - 1]);
            if i == 1 {
                assert(before =~= Seq::<char>::empty());
                assert(r@ =~= p[0]);
            } else {
                assert(r@ =~= before + seq![' '] + p.last());
            }
        }
    }
    assert(v.subrange(0, i as int) =~= v);
    r
}

fn is_page(n: &String) -> (r: bool)
    ensures
        r == (n@ == name_page()),
{
    proof {
        reveal_strlit("page");
    }
    let l = "page".to_owned();
    assert(l@ == "page"@);
    assert(l@ == name_page());
    let r = n.eq(&l);
    assert(r == (n@ == l@));
    r
}

fn is_title(n: &String) -> (r: bool)
    ensures
        r == (n@ == name_title()),
{
    proof {
        reveal_strlit("title");
    }
    let l = "title".to_owned();
    assert(l@ == "title"@);
    assert(l@ == name_title());
    let r = n.eq(&l);
    assert(r == (n@ == l@));
    r
}

fn is_text(n: &String) -> (r: bool)
    ensures
        r == (n@ == name_text()),
{
    proof {
        reveal_strlit("text");
    }
    let l = "text".to_owned();
    assert(l@ == "text"@);
    assert(l@ == name_text());
    let r = n.eq(&l);
    assert(r == (n@ == l@));
    r
}

impl Page {
    /// Advances page recognition by one event.
    pub fn parse(page: Self, event: Event) -> (r: Self)
        ensures
            r@ == step(page@, event@),
    {
        match page {
            Page::Idle => match event {
                Event::StartElement(n) => {
                    if is_page(&n) {
                        Page::Open
                    } else {
                        Page::Idle
                    }
                },
                _ => Page::Idle,
            },
            Page::Open => match event {
                Event::StartElement(n) => {
                    if is_title(&n) {
                        let ts: Vec<String> = Vec::new();
                        assert(strings_view(ts@) =~= Seq::<Seq<char>>::empty());
                        Page::Title(ts)
                    } else {
                        Page::Open
                    }
                },
                Event::EndElement(n) => {
                    if is_page(&n) {
                        Page::Idle
                    } else {
                        Page::Open
                    }
                },
                _ => Page::Open,
            },
            Page::Title(mut ts) => match event {
                Event::Characters(s) => {
                    let ghost before = ts@;
                    ts.push(s);
                    assert(strings_view(ts@) =~= strings_view(before).push(s@));
                    Page::Title(ts)
                },
                Event::CData(s) => {
                    let ghost before = ts@;
                    ts.push(s);
                    assert(strings_view(ts@) =~= strings_view(before).push(s@));
                    Page::Title(ts)
                },
                Event::EndElement(n) => {
                    if is_title(&n) {
                        Page::Titled(join_with_spaces(&ts))
                    } else if is_page(&n) {
                        Page::Idle
                    } else {
                        Page::Title(ts)
                    }
                },
                _ => Page::Title(ts),
            },
            Page::Titled(title) => match event {
                Event::StartElement(n) => {
                    if is_text(&n) {
                        let text: Vec<String> = Vec::new();
                        assert(strings_view(text@) =~= Seq::<Seq<char>>::empty());
                        Page::Text { title, text }
                    } else {
                        Page::Titled(title)
                    }
                },
                Event::EndElement(n) => {
                    if is_page(&n) {
                        Page::Idle
                    } else {
                        Page::Titled(title)
                    }
                },
                _ => Page::Titled(title),
            },
            Page::Text { title, mut text } => match event {
                Event::Characters(s) => {
                    let ghost before = text@;
                    text.push(s);
                    assert(strings_view(text@) =~= strings_view(before).push(s@));
                    Page::Text { title, text }
                },
                Event::CData(s) => {
                    let ghost before = text@;
                    text.push(s);
                    assert(strings_view(text@) =~= strings_view(before).push(s@));
                    Page::Text { title, text }
                },
                Event::EndElement(n) => {
                    if is_text(&n) {
                        Page::Texted { title, text: join_with_spaces(&text) }
                    } else if is_page(&n) {
                        Page::Idle
                    } else {
                        Page::Text { title, text }
                    }
                },
                _ => Page::Text { title, text },
            },
            Page::Texted { .. } => Page::Idle,
        }
    }
}

} // verus!
