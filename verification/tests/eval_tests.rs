use bitrag::bitset::DocBits;
use bitrag::eval::greedy_cover_counts;

fn db(nw: usize, bits: &[usize]) -> DocBits {
    let mut d = DocBits::new(nw);
    for &i in bits {
        d.set(i);
    }
    d
}

#[test]
fn greedy_cover_picks_largest_gain_first() {
    let q = db(1, &[0, 1, 2, 3, 4]);
    let docs = vec![db(1, &[0, 1]), db(1, &[1, 2, 3]), db(1, &[4]), db(1, &[0, 1, 2, 3])];
    assert_eq!(greedy_cover_counts(&q, &docs, 10), vec![(3, 4, 4), (2, 1, 5)]);
}

#[test]
fn greedy_cover_respects_max_docs() {
    let q = db(1, &[0, 1, 2, 3, 4]);
    let docs = vec![db(1, &[0, 1]), db(1, &[1, 2, 3]), db(1, &[4]), db(1, &[0, 1, 2, 3])];
    assert_eq!(greedy_cover_counts(&q, &docs, 1), vec![(3, 4, 4)]);
    assert_eq!(greedy_cover_counts(&q, &docs, 0), vec![]);
}

#[test]
fn greedy_cover_ties_take_the_last_document() {
    let q = db(1, &[0]);
    let docs = vec![db(1, &[0]), db(1, &[0])];
    assert_eq!(greedy_cover_counts(&q, &docs, 5), vec![(1, 1, 1)]);
}

#[test]
fn greedy_cover_stops_without_gain() {
    let q = db(1, &[5, 6]);
    let docs = vec![db(1, &[6]), db(1, &[0])];
    assert_eq!(greedy_cover_counts(&q, &docs, 5), vec![(0, 1, 1)]);
    assert_eq!(greedy_cover_counts(&db(1, &[5]), &[db(1, &[0])], 5), vec![]);
}

#[test]
fn greedy_cover_of_empty_query_is_empty() {
    let q = DocBits::new(2);
    let docs = vec![db(2, &[3])];
    assert_eq!(greedy_cover_counts(&q, &docs, 5), vec![]);
}

#[test]
fn greedy_cover_counts_only_new_bits() {
    let q = db(2, &[0, 1, 64, 65]);
    let docs = vec![db(2, &[0, 1, 64]), db(2, &[1, 64, 65])];
    // Doc 1 is picked second and adds only bit 65.
    assert_eq!(greedy_cover_counts(&q, &docs, 5), vec![(1, 3, 3), (0, 1, 4)]);
}

#[test]
fn greedy_cover_reads_narrow_documents_as_empty_past_their_end() {
    // Query bits 3 and 70 span two words; the narrow document holds only the first.
    let q = db(2, &[3, 70]);
    let docs = vec![db(1, &[3]), db(2, &[70])];
    assert_eq!(greedy_cover_counts(&q, &docs, 5), vec![(1, 1, 1), (0, 1, 2)]);
    let narrow_first = vec![db(1, &[3, 5])];
    assert_eq!(greedy_cover_counts(&q, &narrow_first, 5), vec![(0, 1, 1)]);
}
