//! Building blocks for Kindle MOBI files: dictionaries, books and comics.

pub mod archive;
pub mod borders;
pub mod bytes;
pub mod cli;
pub mod codec;
pub mod comic;
pub mod comic_book;
pub mod compiler;
pub mod contrast;
pub mod dictionary;
pub mod exth;
pub mod header;
pub mod images;
pub mod input;
pub mod kf8;
pub mod labels;
pub mod layout;
pub mod lookup;
pub mod markup;
pub mod md5;
pub mod mobi;
pub mod order;
pub mod package;
pub mod pages;
pub mod palmdb;
pub mod palmdoc;
pub mod panels;
pub mod paths;
pub mod pattern;
pub mod picture;
pub mod records;
pub mod text;
pub mod vwi;
pub mod webtoon;
pub mod xml;
