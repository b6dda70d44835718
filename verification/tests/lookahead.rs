use lazy_tokens::{LookAheadHandle, LookAheadIterator, Source, Utf8Iter, VecSource};

fn wrapper(items: &[char]) -> LookAheadIterator<VecSource<char>> {
    LookAheadIterator::new(VecSource::new(items.to_vec()))
}

fn read<S: Source>(cursor: &mut LookAheadHandle<'_, S>, count: usize) -> Vec<Option<S::Item>>
where
    S::Item: Clone,
{
    let mut found = Vec::new();
    for _ in 0..count {
        found.push(cursor.next());
    }
    found
}

#[test]
fn wrapper_hands_out_the_items_of_its_source() {
    let mut items = wrapper(&['a', 'b', 'c']);
    assert_eq!(items.next(), Some('a'));
    assert_eq!(items.next(), Some('b'));
    assert_eq!(items.next(), Some('c'));
    assert_eq!(items.next(), None);
    assert_eq!(items.next(), None);
}

#[test]
fn peek_twice_then_next_gives_the_same_item() {
    let mut items = wrapper(&['a', 'b']);
    assert_eq!(items.peek(), Some(&'a'));
    assert_eq!(items.peek(), Some(&'a'));
    assert_eq!(items.next(), Some('a'));
    assert_eq!(items.peek(), Some(&'b'));
    assert_eq!(items.peek(), Some(&'b'));
    assert_eq!(items.next(), Some('b'));
    assert_eq!(items.peek(), None);
    assert_eq!(items.peek(), None);
    assert_eq!(items.next(), None);
}

#[test]
fn peek_on_an_empty_source_finds_nothing() {
    let mut items = wrapper(&[]);
    assert_eq!(items.peek(), None);
    assert_eq!(items.next(), None);
}

#[test]
fn two_cursors_read_the_same_items() {
    let mut items = wrapper(&['a', 'b', 'c', 'd']);
    let first = {
        let mut cursor = items.lookahead();
        read(&mut cursor, 3)
    };
    let second = {
        let mut cursor = items.lookahead();
        read(&mut cursor, 3)
    };
    assert_eq!(first, vec![Some('a'), Some('b'), Some('c')]);
    assert_eq!(second, first);
    assert_eq!(items.next(), Some('a'));
    assert_eq!(items.next(), Some('b'));
    assert_eq!(items.next(), Some('c'));
    assert_eq!(items.next(), Some('d'));
    assert_eq!(items.next(), None);
}

#[test]
fn cursor_starts_at_the_front_of_what_is_pending() {
    let mut items = wrapper(&['a', 'b', 'c']);
    assert_eq!(items.next(), Some('a'));
    assert_eq!(items.peek(), Some(&'b'));
    let mut cursor = items.lookahead();
    assert_eq!(cursor.index, 0);
    assert_eq!(cursor.next(), Some('b'));
    assert_eq!(cursor.index, 1);
    assert_eq!(cursor.next(), Some('c'));
    assert_eq!(cursor.index, 2);
    assert_eq!(items.next(), Some('b'));
}

#[test]
fn cursor_beyond_the_end_yields_nothing_and_stays() {
    let mut items = wrapper(&['a', 'b']);
    let mut cursor = items.lookahead();
    assert_eq!(read(&mut cursor, 4), vec![Some('a'), Some('b'), None, None]);
    assert_eq!(cursor.index, 2);
    assert_eq!(cursor.next(), None);
    assert_eq!(cursor.index, 2);
    assert_eq!(items.next(), Some('a'));
    assert_eq!(items.next(), Some('b'));
    assert_eq!(items.next(), None);
}

#[test]
fn cursor_on_an_empty_source_yields_nothing() {
    let mut items = wrapper(&[]);
    let mut cursor = items.lookahead();
    assert_eq!(cursor.next(), None);
    assert_eq!(cursor.index, 0);
    assert_eq!(items.peek(), None);
}

#[test]
fn cursor_reads_do_not_consume() {
    let mut items = wrapper(&['a', 'b', 'c']);
    {
        let mut cursor = items.lookahead();
        assert_eq!(cursor.next(), Some('a'));
        assert_eq!(cursor.next(), Some('b'));
    }
    assert_eq!(items.peek(), Some(&'a'));
    assert_eq!(items.next(), Some('a'));
    {
        let mut cursor = items.lookahead();
        assert_eq!(cursor.next(), Some('b'));
        assert_eq!(cursor.next(), Some('c'));
        assert_eq!(cursor.next(), None);
    }
    assert_eq!(items.next(), Some('b'));
    assert_eq!(items.next(), Some('c'));
    assert_eq!(items.next(), None);
}

#[test]
fn cursor_placed_ahead_fills_the_buffer_up_to_its_item() {
    let mut items = wrapper(&['a', 'b', 'c', 'd']);
    let mut cursor = LookAheadHandle { inner: &mut items, index: 2 };
    assert_eq!(cursor.next(), Some('c'));
    assert_eq!(cursor.index, 3);
    assert_eq!(items.next(), Some('a'));
    assert_eq!(items.next(), Some('b'));
    assert_eq!(items.next(), Some('c'));
    assert_eq!(items.next(), Some('d'));
}

#[test]
fn fill_buf_pulls_one_item_at_a_time() {
    let mut items = wrapper(&['a', 'b']);
    assert_eq!(items.fill_buf(), Some(()));
    assert_eq!(items.fill_buf(), Some(()));
    assert_eq!(items.fill_buf(), None);
    assert_eq!(items.fill_buf(), None);
    assert_eq!(items.next(), Some('a'));
    assert_eq!(items.next(), Some('b'));
    assert_eq!(items.next(), None);
}

#[test]
fn looking_ahead_pulls_no_more_than_it_reads() {
    let mut items = LookAheadIterator::new(Utf8Iter::new(VecSource::new(vec![0x61, 0x62, 0xED, 0xA0, 0x80])));
    assert_eq!(items.peek(), Some(&'a'));
    assert_eq!(items.source().end(), None);
    {
        let mut cursor = items.lookahead();
        assert_eq!(cursor.next(), Some('a'));
        assert_eq!(cursor.next(), Some('b'));
    }
    assert_eq!(items.source().end(), None);
    {
        let mut cursor = items.lookahead();
        assert_eq!(read(&mut cursor, 3), vec![Some('a'), Some('b'), None]);
    }
    assert!(items.source().end().is_some());
    assert_eq!(items.next(), Some('a'));
    assert_eq!(items.next(), Some('b'));
    assert_eq!(items.next(), None);
}

#[test]
fn wrapper_over_decoded_bytes_yields_characters() {
    let mut items = LookAheadIterator::new(Utf8Iter::new(VecSource::new("\u{e9}x".as_bytes().to_vec())));
    assert_eq!(items.peek(), Some(&'\u{e9}'));
    assert_eq!(items.next(), Some('\u{e9}'));
    assert_eq!(items.next(), Some('x'));
    assert_eq!(items.next(), None);
}
