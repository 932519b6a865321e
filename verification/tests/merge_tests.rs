use mini_lsm::iterators::merge_iterator::MergeIterator;
use mini_lsm::iterators::StorageIterator;
use mini_lsm::key::KeySlice;

/// An iterator over a fixed list of entries that can fail on a chosen step.
struct ListIter {
    items: Vec<(Vec<u8>, Vec<u8>)>,
    pos: usize,
    fail_at: Option<usize>,
}

impl ListIter {
    fn new(items: &[(&str, &str)]) -> Box<Self> {
        Box::new(ListIter {
            items: items
                .iter()
                .map(|(k, v)| (k.as_bytes().to_vec(), v.as_bytes().to_vec()))
                .collect(),
            pos: 0,
            fail_at: None,
        })
    }

    fn failing(items: &[(&str, &str)], at: usize) -> Box<Self> {
        let mut it = Self::new(items);
        it.fail_at = Some(at);
        it
    }
}

impl StorageIterator for ListIter {
    fn value(&self) -> &[u8] {
        if self.pos < self.items.len() {
            &self.items[self.pos].1
        } else {
            &[]
        }
    }

    fn key(&self) -> KeySlice<'_> {
        if self.pos < self.items.len() {
            KeySlice::from_slice(&self.items[self.pos].0)
        } else {
            KeySlice::from_slice(&[])
        }
    }

    fn is_valid(&self) -> bool {
        self.pos < self.items.len()
    }

    fn next(&mut self) -> Result<(), anyhow::Error> {
        if self.fail_at == Some(self.pos) {
            return Err(anyhow::Error::msg("failed to read the next entry"));
        }
        self.pos += 1;
        Ok(())
    }
}

fn drain(iter: &mut MergeIterator<ListIter>) -> Vec<(String, String)> {
    let mut out = Vec::new();
    while iter.is_valid() {
        out.push((
            String::from_utf8(iter.key().raw_ref().to_vec()).unwrap(),
            String::from_utf8(iter.value().to_vec()).unwrap(),
        ));
        iter.next().unwrap();
    }
    out
}

fn pairs(items: &[(&str, &str)]) -> Vec<(String, String)> {
    items.iter().map(|(k, v)| (k.to_string(), v.to_string())).collect()
}

#[test]
fn merge_yields_keys_in_order_and_prefers_earlier_iterators() {
    let i1 = ListIter::new(&[("a", "1.1"), ("b", "2.1"), ("c", "3.1")]);
    let i2 = ListIter::new(&[("a", "1.2"), ("b", "2.2"), ("c", "3.2"), ("d", "4.2")]);
    let i3 = ListIter::new(&[("b", "2.3"), ("c", "3.3"), ("d", "4.3")]);
    let mut iter = MergeIterator::create(vec![i1, i2, i3]);
    assert_eq!(
        drain(&mut iter),
        pairs(&[("a", "1.1"), ("b", "2.1"), ("c", "3.1"), ("d", "4.2")])
    );
}

#[test]
fn merge_interleaves_disjoint_iterators() {
    let i1 = ListIter::new(&[("b", "1"), ("e", "2")]);
    let i2 = ListIter::new(&[("a", "3"), ("d", "4"), ("f", "5")]);
    let i3 = ListIter::new(&[("c", "6")]);
    let mut iter = MergeIterator::create(vec![i1, i2, i3]);
    assert_eq!(
        drain(&mut iter),
        pairs(&[("a", "3"), ("b", "1"), ("c", "6"), ("d", "4"), ("e", "2"), ("f", "5")])
    );
}

#[test]
fn merge_prefers_the_smaller_index_even_when_it_comes_later() {
    let i1 = ListIter::new(&[("c", "new")]);
    let i2 = ListIter::new(&[("a", "x"), ("c", "old")]);
    let mut iter = MergeIterator::create(vec![i1, i2]);
    assert_eq!(drain(&mut iter), pairs(&[("a", "x"), ("c", "new")]));
}

#[test]
fn merge_of_nothing_is_invalid() {
    let iter: MergeIterator<ListIter> = MergeIterator::create(vec![]);
    assert!(!iter.is_valid());
    assert_eq!(iter.key().raw_ref(), b"");
    assert_eq!(iter.value(), b"");
    let mut iter = MergeIterator::create(vec![ListIter::new(&[]), ListIter::new(&[])]);
    assert!(!iter.is_valid());
    assert!(drain(&mut iter).is_empty());
}

#[test]
fn merge_skips_exhausted_iterators() {
    let i1 = ListIter::new(&[]);
    let i2 = ListIter::new(&[("a", "1")]);
    let mut iter = MergeIterator::create(vec![i1, i2]);
    assert_eq!(drain(&mut iter), pairs(&[("a", "1")]));
}

#[test]
fn merge_reports_an_error_of_a_skipped_iterator_and_stops() {
    let i1 = ListIter::new(&[("a", "1"), ("b", "2")]);
    let i2 = ListIter::failing(&[("a", "x"), ("b", "y")], 0);
    let mut iter = MergeIterator::create(vec![i1, i2]);
    assert!(iter.is_valid());
    assert_eq!(iter.key().raw_ref(), b"a");
    assert!(iter.next().is_err());
    assert!(!iter.is_valid());
}

#[test]
fn merge_reports_an_error_of_the_current_iterator_and_stops() {
    let i1 = ListIter::failing(&[("a", "1"), ("b", "2")], 1);
    let i2 = ListIter::new(&[("c", "3")]);
    let mut iter = MergeIterator::create(vec![i1, i2]);
    assert!(iter.next().is_ok());
    assert_eq!(iter.key().raw_ref(), b"b");
    assert!(iter.next().is_err());
    assert!(!iter.is_valid());
}
