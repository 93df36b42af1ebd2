use parsekit::huffman::freq::FreqTable;
use parsekit::huffman::tree::HuffmanTree;

#[test]
fn test_one_node() {
    let mut table = FreqTable::new();
    table.set('A', 70);

    let tree = HuffmanTree::build_huffman(&table);

    assert!(tree.is_none());
}

#[test]
fn test_two_nodes() {
    let mut table = FreqTable::new();
    table.set('A', 70);
    table.set('B', 89);

    let tree = HuffmanTree::build_huffman(&table).unwrap();

    assert_eq!(tree.root.weight(), 159);
    assert_eq!(tree.root.left().unwrap().weight(), 70);
    assert_eq!(tree.root.right().unwrap().weight(), 89);
}

#[test]
fn test_multi_nodes() {
    let mut table = FreqTable::new();
    table.set('C', 32);
    table.set('D', 42);
    table.set('E', 120);
    table.set('K', 7);
    table.set('L', 42);
    table.set('M', 24);
    table.set('U', 37);
    table.set('Z', 2);

    let tree = HuffmanTree::build_huffman(&table).unwrap();

    assert_eq!(tree.root.left().unwrap().weight(), 120);
    assert_eq!(tree.root.right().unwrap().weight(), 186);
    assert_eq!(tree.root.left().unwrap().elem().unwrap(), 'E');
    assert!(tree.root.right().unwrap().elem().is_none());
}

#[test]
fn test_char_code() {
    let mut table = FreqTable::new();
    table.set('C', 32);
    table.set('D', 42);
    table.set('E', 120);
    table.set('K', 7);
    table.set('L', 42);
    table.set('M', 24);
    table.set('U', 37);
    table.set('Z', 2);

    let tree = HuffmanTree::build_huffman(&table).unwrap();
    let tree2 = HuffmanTree::build_huffman(&table).unwrap();

    let map = HuffmanTree::gen_char_code_map(tree);
    let map2 = HuffmanTree::gen_code_char_map(tree2);

    assert!(map2.get(&map.get('C').unwrap()).unwrap() == 'C');
    assert!(map2.get(&map.get('D').unwrap()).unwrap() == 'D');
    assert!(map2.get(&map.get('E').unwrap()).unwrap() == 'E');
    assert!(map2.get(&map.get('K').unwrap()).unwrap() == 'K');
    assert!(map2.get(&map.get('L').unwrap()).unwrap() == 'L');
    assert!(map2.get(&map.get('M').unwrap()).unwrap() == 'M');
    assert!(map2.get(&map.get('U').unwrap()).unwrap() == 'U');
    assert!(map2.get(&map.get('Z').unwrap()).unwrap() == 'Z');
}

#[test]
fn build_rejects_empty_table() {
    let table = FreqTable::new();
    assert!(HuffmanTree::build_huffman(&table).is_none());
}

#[test]
fn tree_weight_is_total_of_frequencies() {
    let mut table = FreqTable::new();
    table.set('x', 3);
    table.set('y', 5);
    table.set('z', 11);
    let tree = HuffmanTree::build_huffman(&table).unwrap();
    assert_eq!(tree.root.weight(), 19);
}

#[test]
fn frequency_table_last_write_wins() {
    let mut table = FreqTable::new();
    table.set('a', 1);
    table.set('b', 2);
    table.set('a', 9);
    assert_eq!(table.len(), 2);
    assert_eq!(table.get('a'), Some(9));
    assert_eq!(table.get('b'), Some(2));
    assert_eq!(table.get('c'), None);
}

#[test]
fn count_frequencies_counts_each_character() {
    let chars: Vec<char> = "abracadabra".chars().collect();
    let table = parsekit::huffman::freq::count_frequencies(&chars);
    assert_eq!(table.get('a'), Some(5));
    assert_eq!(table.get('b'), Some(2));
    assert_eq!(table.get('r'), Some(2));
    assert_eq!(table.get('c'), Some(1));
    assert_eq!(table.get('d'), Some(1));
    assert_eq!(table.get('x'), None);
}
