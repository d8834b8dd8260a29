pub mod to_html;
