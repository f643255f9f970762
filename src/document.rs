//! Putting per-page OCR output back together in page order, whatever order
//! the pages finished in.
use vstd::prelude::*;

verus! {

/// The OCR text of one text-bearing page, tagged with its 0-based page index.
pub struct PageResult {
    pub page_index: usize,
    pub text: String,
}

/// What one page contributes: nothing when it carries no text; otherwise its
/// OCR text, or empty text when OCR failed (`ocr_text` is `None`).
pub fn page_outcome(page_index: usize, text_bearing: bool, ocr_text: Option<String>) -> (r:
    Option<PageResult>)
    ensures
        text_bearing <==> r is Some,
        r matches Some(p) ==> p.page_index == page_index && p.text@ == match ocr_text {
            Some(t) => t@,
            None => Seq::<char>::empty(),
        },
{
    if !text_bearing {
        None
    } else {
        let text = match ocr_text {
            Some(t) => t,
            None => String::new(),
        };
        Some(PageResult { page_index, text })
    }
}

/// The texts of `rs[..k]` whose page index is `i`, concatenated in order.
pub open spec fn texts_at(rs: Seq<PageResult>, i: int, k: int) -> Seq<char>
    decreases k,
{
    if k <= 0 {
        Seq::empty()
    } else {
        texts_at(rs, i, k - 1) + if rs[k - 1].page_index == i {
            rs[k - 1].text@
        } else {
            Seq::empty()
        }
    }
}

/// The document text: for pages `0..n` in ascending order, the text of each
/// result for that page; pages without a result contribute nothing.
pub open spec fn document_text(rs: Seq<PageResult>, n: int) -> Seq<char>
    decreases n,
{
    if n <= 0 {
        Seq::empty()
    } else {
        document_text(rs, n - 1) + texts_at(rs, n - 1, rs.len() as int)
    }
}

/// No two results name the same page.
pub open spec fn unique_pages(rs: Seq<PageResult>) -> bool {
    forall|a: int, b: int|
        0 <= a < rs.len() && 0 <= b < rs.len() && a != b ==> rs[a].page_index
            != rs[b].page_index
}

/// Concatenates the results of the first `page_count` pages in ascending
/// page order, with no separator; the order of `results` does not matter.
pub fn assemble_document(results: &Vec<PageResult>, page_count: usize) -> (r: String)
    ensures
        r@ == document_text(results@, page_count as int),
{
    let mut out = String::new();
    let mut i: usize = 0;
    while i < page_count
        invariant
            i <= page_count,
            out@ == document_text(results@, i as int),
        decreases page_count - i,
    {
        let mut k: usize = 0;
        let ghost before = out@;
        while k < results.len()
            invariant
                i < page_count,
                k <= results.len(),
                before == document_text(results@, i as int),
                out@ == before + texts_at(results@, i as int, k as int),
            decreases results.len() - k,
        {
            if results[k].page_index == i {
                out.append(results[k].text.as_str());
            }
            assert(out@ =~= before + texts_at(results@, i as int, (k + 1) as int));
            k = k + 1;
        }
        i = i + 1;
    }
    out
}

proof fn lemma_texts_at_found(rs: Seq<PageResult>, i: int, k: int, j: int)
    requires
        unique_pages(rs),
        0 <= j < k <= rs.len(),
        rs[j].page_index == i,
    ensures
        texts_at(rs, i, k) == rs[j].text@,
    decreases k,
{
    if j < k - 1 {
        lemma_texts_at_found(rs, i, k - 1, j);
        assert(rs[k - 1].page_index != i);
        assert(texts_at(rs, i, k) =~= texts_at(rs, i, k - 1));
    } else {
        lemma_texts_at_absent(rs, i, k - 1);
        assert(texts_at(rs, i, k) =~= rs[j].text@);
    }
}

proof fn lemma_texts_at_absent(rs: Seq<PageResult>, i: int, k: int)
    requires
        0 <= k <= rs.len(),
        unique_pages(rs),
        forall|j: int| 0 <= j < k ==> rs[j].page_index != i,
    ensures
        texts_at(rs, i, k) == Seq::<char>::empty(),
    decreases k,
{
    if k > 0 {
        lemma_texts_at_absent(rs, i, k - 1);
        assert(texts_at(rs, i, k) =~= Seq::<char>::empty());
    }
}

proof fn lemma_same_page_text(rs1: Seq<PageResult>, rs2: Seq<PageResult>, i: int)
    requires
        rs1.to_multiset() == rs2.to_multiset(),
        unique_pages(rs1),
        unique_pages(rs2),
    ensures
        texts_at(rs1, i, rs1.len() as int) == texts_at(rs2, i, rs2.len() as int),
{
    broadcast use vstd::seq_lib::group_to_multiset_ensures;
    if exists|j: int| 0 <= j < rs1.len() && rs1[j].page_index == i {
        let j1 = choose|j: int| 0 <= j < rs1.len() && rs1[j].page_index == i;
        assert(rs1.contains(rs1[j1]));
        assert(rs1.to_multiset().count(rs1[j1]) > 0);
        assert(rs2.to_multiset().count(rs1[j1]) > 0);
        assert(rs2.contains(rs1[j1]));
        let j2 = choose|j: int| 0 <= j < rs2.len() && rs2[j] == rs1[j1];
        lemma_texts_at_found(rs1, i, rs1.len() as int, j1);
        lemma_texts_at_found(rs2, i, rs2.len() as int, j2);
    } else {
        assert forall|j: int| 0 <= j < rs2.len() implies rs2[j].page_index != i by {
            if rs2[j].page_index == i {
                assert(rs2.contains(rs2[j]));
                assert(rs2.to_multiset().count(rs2[j]) > 0);
                assert(rs1.to_multiset().count(rs2[j]) > 0);
                assert(rs1.contains(rs2[j]));
            }
        }
        lemma_texts_at_absent(rs1, i, rs1.len() as int);
        lemma_texts_at_absent(rs2, i, rs2.len() as int);
    }
}

/// The document text depends only on which results there are, not on the
/// order in which they were collected: two collections holding the same
/// results (each page at most once) give the same text.
pub proof fn lemma_document_order_independent(
    rs1: Seq<PageResult>,
    rs2: Seq<PageResult>,
    n: int,
)
    requires
        rs1.to_multiset() == rs2.to_multiset(),
        unique_pages(rs1),
        unique_pages(rs2),
    ensures
        document_text(rs1, n) == document_text(rs2, n),
    decreases n,
{
    if n > 0 {
        lemma_document_order_independent(rs1, rs2, n - 1);
        lemma_same_page_text(rs1, rs2, n - 1);
    }
}

/// With each page present at most once, the text of a page that has a result
/// is exactly that result's text, and a page without one contributes nothing.
pub proof fn lemma_page_text(rs: Seq<PageResult>, i: int)
    requires
        unique_pages(rs),
    ensures
        forall|j: int|
            0 <= j < rs.len() && rs[j].page_index == i ==> texts_at(rs, i, rs.len() as int)
                == rs[j].text@,
        (forall|j: int| 0 <= j < rs.len() ==> rs[j].page_index != i) ==> texts_at(
            rs,
            i,
            rs.len() as int,
        ) == Seq::<char>::empty(),
{
    assert forall|j: int| 0 <= j < rs.len() && rs[j].page_index == i implies texts_at(
        rs,
        i,
        rs.len() as int,
    ) == rs[j].text@ by {
        lemma_texts_at_found(rs, i, rs.len() as int, j);
    }
    if forall|j: int| 0 <= j < rs.len() ==> rs[j].page_index != i {
        lemma_texts_at_absent(rs, i, rs.len() as int);
    }
}

} // verus!
