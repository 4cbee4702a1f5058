//! The languages of the user interface and their texts.

use crate::text::same_text;
use vstd::prelude::*;
use vstd::string::*;

verus! {

/// The languages of the user interface.
#[derive(Debug, Clone, Copy, PartialEq, Eq, Hash, Structural)]
pub enum Language {
    English,
    Spanish,
    Polish,
}

/// What `str::to_lowercase` returns for a text.
pub uninterp spec fn lowercase_of(s: Seq<char>) -> Seq<char>;

/// `str::to_lowercase` of the standard library: the text in lower case.
#[verifier::external_body]
fn lowercase(s: &str) -> (r: String)
    ensures
        r@ == lowercase_of(s@),
{
    s.to_lowercase()
}

/// The language that a name or a code stands for, whatever its case; English for
/// anything else.
pub open spec fn language_named(name: Seq<char>) -> Language {
    let lower = lowercase_of(name);
    if lower == "en"@ || lower == "english"@ {
        Language::English
    } else if lower == "es"@ || lower == "spanish"@ {
        Language::Spanish
    } else if lower == "pl"@ || lower == "polish"@ {
        Language::Polish
    } else {
        Language::English
    }
}

/// The English name of a language.
pub open spec fn language_name(language: Language) -> Seq<char> {
    match language {
        Language::English => "English"@,
        Language::Spanish => "Spanish"@,
        Language::Polish => "Polish"@,
    }
}

impl Language {
    /// The language that a name or a code stands for; English where none is given
    /// or the name is unknown.
    pub fn of(str: Option<String>) -> (language: Language)
        ensures
            language == match str {
                None => Language::English,
                Some(name) => language_named(name@),
            },
    {
        match str {
            None => Language::English,
            Some(name) => {
                let lower = lowercase(name.as_str());
                if same_text(lower.as_str(), "en") || same_text(lower.as_str(), "english") {
                    Language::English
                } else if same_text(lower.as_str(), "es") || same_text(lower.as_str(), "spanish") {
                    Language::Spanish
                } else if same_text(lower.as_str(), "pl") || same_text(lower.as_str(), "polish") {
                    Language::Polish
                } else {
                    Language::English
                }
            },
        }
    }

    /// The English name of the language.
    pub fn to_string(&self) -> (s: String)
        ensures
            s@ == language_name(*self),
    {
        match self {
            Language::English => String::from_str("English"),
            Language::Spanish => String::from_str("Spanish"),
            Language::Polish => String::from_str("Polish"),
        }
    }
}

/// The texts of the user interface in one language: pairs of a key and its
/// translation. Where a key stands twice, the later pair counts.
pub struct Locale {
    language: Language,
    translation_map: Vec<(String, String)>,
}

/// The translation of `key` in a table: that of the last pair with the key.
pub open spec fn translation_in(table: Seq<(Seq<char>, Seq<char>)>, key: Seq<char>) -> Option<
    Seq<char>,
>
    decreases table.len(),
{
    if table.len() == 0 {
        None
    } else if table.last().0 == key {
        Some(table.last().1)
    } else {
        translation_in(table.drop_last(), key)
    }
}

/// The texts of the user interface in English.
fn english() -> (table: Vec<(&'static str, &'static str)>)
    ensures
        table@ == english_texts(),
{
    let table = vec![
        ("objects", "Objects"),
        ("matrix", "Matrix"),
        ("Add Matrix", "Add Matrix"),
        ("Add Scalar", "Add Scalar"),
        ("JP2GMD - Matrix Calculator", "JP2GMD - Matrix Calculator"),
        ("Echelon", "Echelon"),
        ("Inverse", "Inverse"),
        ("Transpose", "Transpose"),
        ("Run", "Run"),
        ("Editor", "Editor"),
        ("Identifier:", "Identifier:"),
        ("Matrix is invalid!", "Matrix is invalid!"),
        ("Add", "Add"),
        ("Error", "Error"),
        ("Enter the matrix:", "Enter the matrix:"),
        ("Enter the scalar:", "Enter the scalar:"),
        ("Height", "Height"),
        ("Width", "Width"),
        ("Edit", "Edit"),
        ("Error ", "Error "),
        ("Identifier is invalid!", "Identifier is invalid!"),
        ("LaTeX copied to clipboard", "LaTeX copied to clipboard"),
        ("Failed to generate LaTeX", "Failed to generate LaTeX"),
        ("Language", "Language"),
        ("English", "English"),
        ("Polish", "Polish"),
        ("Spanish", "Spanish"),
    ];
    assert(table@ =~= english_texts());
    table
}

/// The texts of the user interface in English.
pub open spec fn english_texts() -> Seq<(&'static str, &'static str)> {
    seq![
        ("objects", "Objects"),
        ("matrix", "Matrix"),
        ("Add Matrix", "Add Matrix"),
        ("Add Scalar", "Add Scalar"),
        ("JP2GMD - Matrix Calculator", "JP2GMD - Matrix Calculator"),
        ("Echelon", "Echelon"),
        ("Inverse", "Inverse"),
        ("Transpose", "Transpose"),
        ("Run", "Run"),
        ("Editor", "Editor"),
        ("Identifier:", "Identifier:"),
        ("Matrix is invalid!", "Matrix is invalid!"),
        ("Add", "Add"),
        ("Error", "Error"),
        ("Enter the matrix:", "Enter the matrix:"),
        ("Enter the scalar:", "Enter the scalar:"),
        ("Height", "Height"),
        ("Width", "Width"),
        ("Edit", "Edit"),
        ("Error ", "Error "),
        ("Identifier is invalid!", "Identifier is invalid!"),
        ("LaTeX copied to clipboard", "LaTeX copied to clipboard"),
        ("Failed to generate LaTeX", "Failed to generate LaTeX"),
        ("Language", "Language"),
        ("English", "English"),
        ("Polish", "Polish"),
        ("Spanish", "Spanish"),
    ]
}

/// The texts of the user interface in Polish.
fn polish() -> (table: Vec<(&'static str, &'static str)>)
    ensures
        table@ == polish_texts(),
{
    let table = vec![
        ("objects", "Obiekty"),
        ("matrix", "Macierz"),
        ("Add Matrix", "Dodaj Macierz"),
        ("Add Scalar", "Dodaj Skalar"),
        (
            "JP2GMD - Matrix Calculator",
            "Jaki Potężny 2-wymiarowy Generator Macierzy Diagonalizowalnych - Kalkulator Macierzy",
        ),
        ("Echelon", "Schodkuj"),
        ("Inverse", "Odwrotność"),
        ("Transpose", "Transponuj"),
        ("Run", "Uruchom"),
        ("Editor", "Edytor"),
        ("Identifier:", "Identyfikator:"),
        ("Matrix is invalid!", "Macierz jest niepoprawna!"),
        ("Add", "Dodaj"),
        ("Error", "Błąd"),
        ("Enter the matrix:", "Wprowadź macierz:"),
        ("Enter the scalar:", "Wprowadź skalar:"),
        ("Height", "Wysokość"),
        ("Width", "Szerokość"),
        ("Edit", "Edytuj"),
        ("Error ", "Błąd "),
        ("Identifier is invalid!", "Identyfikator jest niepoprawny!"),
        ("LaTeX copied to clipboard", "Skopiowano LaTeX'a do schowka"),
        ("Failed to generate LaTeX", "Nie udało się wygenerować LaTeX'a"),
        ("Language", "Język"),
        ("English", "Angielski"),
        ("Polish", "Polski"),
        ("Spanish", "Hiszpański"),
    ];
    assert(table@ =~= polish_texts());
    table
}

/// The texts of the user interface in Polish.
pub open spec fn polish_texts() -> Seq<(&'static str, &'static str)> {
    seq![
        ("objects", "Obiekty"),
        ("matrix", "Macierz"),
        ("Add Matrix", "Dodaj Macierz"),
        ("Add Scalar", "Dodaj Skalar"),
        (
            "JP2GMD - Matrix Calculator",
            "Jaki Potężny 2-wymiarowy Generator Macierzy Diagonalizowalnych - Kalkulator Macierzy",
        ),
        ("Echelon", "Schodkuj"),
        ("Inverse", "Odwrotność"),
        ("Transpose", "Transponuj"),
        ("Run", "Uruchom"),
        ("Editor", "Edytor"),
        ("Identifier:", "Identyfikator:"),
        ("Matrix is invalid!", "Macierz jest niepoprawna!"),
        ("Add", "Dodaj"),
        ("Error", "Błąd"),
        ("Enter the matrix:", "Wprowadź macierz:"),
        ("Enter the scalar:", "Wprowadź skalar:"),
        ("Height", "Wysokość"),
        ("Width", "Szerokość"),
        ("Edit", "Edytuj"),
        ("Error ", "Błąd "),
        ("Identifier is invalid!", "Identyfikator jest niepoprawny!"),
        ("LaTeX copied to clipboard", "Skopiowano LaTeX'a do schowka"),
        ("Failed to generate LaTeX", "Nie udało się wygenerować LaTeX'a"),
        ("Language", "Język"),
        ("English", "Angielski"),
        ("Polish", "Polski"),
        ("Spanish", "Hiszpański"),
    ]
}

/// The texts of the user interface in Spanish.
fn spanish() -> (table: Vec<(&'static str, &'static str)>)
    ensures
        table@ == spanish_texts(),
{
    let table = vec![
        ("objects", "Objetos"),
        ("matrix", "Matriz"),
        ("Add Matrix", "Añadir Matriz"),
        ("Add Scalar", "Añadir Escalar"),
        ("JP2GMD - Matrix Calculator", "JP2GMD - Calculadora de Matrices"),
        ("Echelon", "Echelon"),
        ("Inverse", "Inversa"),
        ("Transpose", "Transpuesta"),
        ("Run", "Ejecutar"),
        ("Editor", "Editor"),
        ("Identifier:", "Identificador:"),
        ("Matrix is invalid!", "¡La matriz es inválida!"),
        ("Add", "Añadir"),
        ("Error", "Error"),
        ("Enter the matrix:", "Introduzca la matriz:"),
        ("Enter the scalar:", "Introduzca el escalar:"),
        ("Height", "Altura"),
        ("Width", "Anchura"),
        ("Editor", "Editar"),
        ("Error ", "Error "),
        ("Identifier is invalid!", "¡El identificador es inválido!"),
        ("LaTeX copied to clipboard", "LaTeX copiado al portapapeles"),
        ("Failed to generate LaTeX", "No se pudo generar LaTeX"),
        ("Language", "Idioma"),
        ("English", "Inglés"),
        ("Polish", "Polaco"),
        ("Spanish", "Español"),
    ];
    assert(table@ =~= spanish_texts());
    table
}

/// The texts of the user interface in Spanish.
pub open spec fn spanish_texts() -> Seq<(&'static str, &'static str)> {
    seq![
        ("objects", "Objetos"),
        ("matrix", "Matriz"),
        ("Add Matrix", "Añadir Matriz"),
        ("Add Scalar", "Añadir Escalar"),
        ("JP2GMD - Matrix Calculator", "JP2GMD - Calculadora de Matrices"),
        ("Echelon", "Echelon"),
        ("Inverse", "Inversa"),
        ("Transpose", "Transpuesta"),
        ("Run", "Ejecutar"),
        ("Editor", "Editor"),
        ("Identifier:", "Identificador:"),
        ("Matrix is invalid!", "¡La matriz es inválida!"),
        ("Add", "Añadir"),
        ("Error", "Error"),
        ("Enter the matrix:", "Introduzca la matriz:"),
        ("Enter the scalar:", "Introduzca el escalar:"),
        ("Height", "Altura"),
        ("Width", "Anchura"),
        ("Editor", "Editar"),
        ("Error ", "Error "),
        ("Identifier is invalid!", "¡El identificador es inválido!"),
        ("LaTeX copied to clipboard", "LaTeX copiado al portapapeles"),
        ("Failed to generate LaTeX", "No se pudo generar LaTeX"),
        ("Language", "Idioma"),
        ("English", "Inglés"),
        ("Polish", "Polaco"),
        ("Spanish", "Español"),
    ]
}

/// The pairs of key and text of a language.
pub open spec fn texts_in(language: Language) -> Seq<(Seq<char>, Seq<char>)> {
    let raw = match language {
        Language::English => english_texts(),
        Language::Polish => polish_texts(),
        Language::Spanish => spanish_texts(),
    };
    Seq::new(raw.len(), |i: int| (raw[i].0@, raw[i].1@))
}

/// A table of owned texts with the pairs of `raw`.
fn gen_map(raw: &Vec<(&'static str, &'static str)>) -> (table: Vec<(String, String)>)
    ensures
        table@.len() == raw@.len(),
        forall|i: int|
            0 <= i < raw@.len() ==> (#[trigger] table@[i]).0@ == raw@[i].0@ && table@[i].1@
                == raw@[i].1@,
{
    let mut table: Vec<(String, String)> = Vec::new();
    let mut i: usize = 0;
    while i < raw.len()
        invariant
            i <= raw.len(),
            table@.len() == i,
            forall|k: int|
                0 <= k < i ==> (#[trigger] table@[k]).0@ == raw@[k].0@ && table@[k].1@
                    == raw@[k].1@,
        decreases raw.len() - i,
    {
        table.push((String::from_str(raw[i].0), String::from_str(raw[i].1)));
        i += 1;
    }
    table
}

impl Locale {
    /// The language of the texts.
    pub closed spec fn language(&self) -> Language {
        self.language
    }

    /// The pairs of key and translation.
    pub closed spec fn entries(&self) -> Seq<(Seq<char>, Seq<char>)> {
        Seq::new(
            self.translation_map@.len(),
            |i: int| (self.translation_map@[i].0@, self.translation_map@[i].1@),
        )
    }

    /// The texts of the user interface in a language.
    pub fn new(language: Language) -> (locale: Self)
        ensures
            locale.language() == language,
            locale.entries() == texts_in(language),
    {
        let raw = match language {
            Language::English => english(),
            Language::Polish => polish(),
            Language::Spanish => spanish(),
        };
        let locale = Self { language, translation_map: gen_map(&raw) };
        assert(locale.entries() =~= texts_in(language));
        locale
    }

    /// The language of the texts.
    pub fn get_language(&self) -> (language: Language)
        ensures
            language == self.language(),
    {
        self.language
    }

    /// The translation of a key, if the table holds the key.
    pub fn find_translation(&self, s: &str) -> (r: Option<String>)
        ensures
            match translation_in(self.entries(), s@) {
                None => r.is_none(),
                Some(t) => r matches Some(found) && found@ == t,
            },
    {
        let mut i = self.translation_map.len();
        assert(self.entries().take(i as int) =~= self.entries());
        while i > 0
            invariant
                i <= self.translation_map.len(),
                translation_in(self.entries(), s@) == translation_in(
                    self.entries().take(i as int),
                    s@,
                ),
            decreases i,
        {
            let ghost shorter = self.entries().take(i as int);
            assert(shorter.last() == self.entries()[i - 1]);
            assert(shorter.drop_last() =~= self.entries().take(i - 1));
            if same_text(self.translation_map[i - 1].0.as_str(), s) {
                return Some(self.translation_map[i - 1].1.clone());
            }
            i -= 1;
        }
        None
    }

    /// The text that was found, or the default where none was.
    fn unwrap_or_default(found: Option<String>, default: &str) -> (r: String)
        ensures
            r@ == match found {
                Some(t) => t@,
                None => default@,
            },
    {
        match found {
            Some(t) => t,
            None => String::from_str(default),
        }
    }

    /// The translation of a key; the key itself where the table does not hold it.
    pub fn get_translated(&self, s: &str) -> (r: String)
        ensures
            r@ == match translation_in(self.entries(), s@) {
                None => s@,
                Some(t) => t,
            },
    {
        Self::unwrap_or_default(self.find_translation(s), s)
    }

    /// The translation of a key; the key itself where the table does not hold it.
    pub fn get_translated_from(&self, s: String) -> (r: String)
        ensures
            r@ == match translation_in(self.entries(), s@) {
                None => s@,
                Some(t) => t,
            },
    {
        self.get_translated(s.as_str())
    }
}

} // verus!
